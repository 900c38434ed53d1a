use chat_server::generator::NameGenerator;
use chat_server::names::valid_name;
use chat_server::protocol::{HELP_MSG, MAIN};
use chat_server::registry::HandleRegistry;
use chat_server::rooms::{RoomEvent, Rooms};
use chat_server::session::{Action, CodecFault, Event, Fault, Observed, Phase, Session};
use tokio::sync::broadcast::error::TryRecvError;
use tokio::sync::broadcast::{Receiver, Sender};

struct Server {
    names: HandleRegistry,
    rooms: Rooms,
}

struct Client {
    session: Session,
    tx: Option<Sender<RoomEvent>>,
    rx: Option<Receiver<RoomEvent>>,
    seen: Vec<String>,
    closed: Option<bool>,
}

fn server() -> Server {
    Server { names: HandleRegistry::new(), rooms: Rooms::new() }
}

fn perform(client: &mut Client, actions: Vec<Action>) {
    for action in actions {
        match action {
            Action::Write(line) => client.seen.push(line),
            Action::Publish(event) => {
                if let Some(tx) = &client.tx {
                    let _ = tx.send(event);
                }
            }
            Action::Enter(_, tx) => {
                client.rx = Some(tx.subscribe());
                client.tx = Some(tx);
            }
            Action::Close(report) => {
                client.closed = Some(report);
                client.rx = None;
                client.tx = None;
            }
        }
    }
}

fn happen(server: &mut Server, client: &mut Client, event: Event) {
    let actions = client.session.step(&mut server.names, &mut server.rooms, event);
    perform(client, actions);
}

fn connect_as(server: &mut Server, handle: &str) -> Client {
    assert!(valid_name(Some(handle)));
    assert!(server.names.try_insert(handle.to_string()));
    let (session, actions) = Session::open(handle.to_string());
    let mut client = Client { session, tx: None, rx: None, seen: Vec::new(), closed: None };
    perform(&mut client, actions);
    happen(server, &mut client, Event::Greeted);
    client
}

fn say(server: &mut Server, client: &mut Client, line: &str) {
    happen(server, client, Event::Line(line.to_string()));
}

/// Hands the client every event that waits in its receiver.
fn hear(server: &mut Server, client: &mut Client) {
    loop {
        let got = match client.rx.as_mut() {
            Some(rx) => rx.try_recv(),
            None => return,
        };
        match got {
            Ok(event) => happen(server, client, Event::Delivered(event)),
            Err(TryRecvError::Lagged(missed)) => happen(server, client, Event::Lagged(missed)),
            Err(TryRecvError::Closed) => happen(server, client, Event::ChannelClosed),
            Err(TryRecvError::Empty) => return,
        }
    }
}

fn take(client: &mut Client) -> Vec<String> {
    std::mem::take(&mut client.seen)
}

#[test]
fn greeting_is_banner_and_handle() {
    let mut names = HandleRegistry::new();
    let mut generator = NameGenerator::new();
    let handle = names.reserve_unique(&mut generator).unwrap();
    let (session, actions) = Session::open(handle.clone());
    assert_eq!(session.phase(), Phase::Greeting);
    assert_eq!(actions.len(), 1);
    match &actions[0] {
        Action::Write(line) => {
            assert_eq!(line, &format!("{}\nYou are {}", HELP_MSG, handle));
            assert_eq!(line.matches('\n').count(), 1);
        }
        _ => panic!("the greeting is a line for the client"),
    }
}

#[test]
fn session_joins_main_after_greeting() {
    let mut server = server();
    let mut alpha = connect_as(&mut server, "alpha");
    assert_eq!(alpha.session.phase(), Phase::Active);
    assert_eq!(alpha.session.room(), MAIN);
    assert_eq!(server.rooms.list_users(MAIN), Some(vec!["alpha".to_string()]));
    hear(&mut server, &mut alpha);
    assert_eq!(take(&mut alpha), vec![
        format!("{}\nYou are alpha", HELP_MSG),
        "You joined main".to_string(),
    ]);
}

#[test]
fn failed_greeting_frees_the_handle() {
    let mut server = server();
    assert!(server.names.try_insert("alpha".to_string()));
    let (mut session, _) = Session::open("alpha".to_string());
    let actions = session.step(
        &mut server.names,
        &mut server.rooms,
        Event::WriteFailed(CodecFault::Io(Fault::BrokenPipe)),
    );
    assert_eq!(actions.len(), 1);
    assert!(matches!(actions[0], Action::Close(false)));
    assert_eq!(session.phase(), Phase::Done);
    assert!(!server.names.contains("alpha"));
    assert!(!server.rooms.contains(MAIN));
}

#[test]
fn echo_with_presence() {
    let mut server = server();
    let mut alpha = connect_as(&mut server, "alpha");
    let mut beta = connect_as(&mut server, "beta");
    hear(&mut server, &mut alpha);
    hear(&mut server, &mut beta);
    let alpha_saw = take(&mut alpha);
    assert_eq!(alpha_saw[1..], ["You joined main".to_string(), "beta joined".to_string()]);
    let beta_saw = take(&mut beta);
    assert_eq!(beta_saw[1..], ["You joined main".to_string()]);

    say(&mut server, &mut alpha, "hello");
    hear(&mut server, &mut alpha);
    hear(&mut server, &mut beta);
    assert_eq!(take(&mut alpha), vec!["alpha: hello".to_string()]);
    assert_eq!(take(&mut beta), vec!["alpha: hello".to_string()]);
}

#[test]
fn rename_conflict() {
    let mut server = server();
    let mut a = connect_as(&mut server, "alpha");
    let mut b = connect_as(&mut server, "beta");
    hear(&mut server, &mut a);
    hear(&mut server, &mut b);
    take(&mut a);
    take(&mut b);

    say(&mut server, &mut a, "/name bob");
    assert_eq!(a.session.handle(), "bob");
    hear(&mut server, &mut a);
    hear(&mut server, &mut b);
    assert_eq!(take(&mut a), vec!["alpha is now bob".to_string()]);
    assert_eq!(take(&mut b), vec!["alpha is now bob".to_string()]);
    assert!(server.names.contains("bob"));
    assert!(!server.names.contains("alpha"));
    assert_eq!(server.names.len(), 2);
    assert_eq!(
        server.rooms.list_users(MAIN),
        Some(vec!["beta".to_string(), "bob".to_string()])
    );

    say(&mut server, &mut b, "/name bob");
    assert_eq!(take(&mut b), vec!["bob is already taken".to_string()]);
    assert_eq!(b.session.handle(), "beta");
    hear(&mut server, &mut a);
    assert!(take(&mut a).is_empty());

    say(&mut server, &mut b, "/name alpha");
    assert_eq!(b.session.handle(), "alpha");
    assert_eq!(server.names.len(), 2);
}

#[test]
fn rename_to_own_handle_is_refused() {
    let mut server = server();
    let mut a = connect_as(&mut server, "alpha");
    take(&mut a);
    say(&mut server, &mut a, "/name alpha");
    assert_eq!(take(&mut a), vec!["alpha is already taken".to_string()]);
    assert!(server.names.contains("alpha"));
}

#[test]
fn rename_needs_a_name() {
    let mut server = server();
    let mut a = connect_as(&mut server, "alpha");
    take(&mut a);
    for line in ["/name", "/name x", "/name not-a-name-because-it-is-long", "/name b@d"] {
        say(&mut server, &mut a, line);
        assert_eq!(take(&mut a), vec!["Name must be 2 - 20 alphanumeric chars".to_string()]);
    }
    assert_eq!(a.session.handle(), "alpha");
    assert_eq!(server.names.len(), 1);
}

#[test]
fn join_and_list() {
    let mut server = server();
    let mut a = connect_as(&mut server, "alpha");
    hear(&mut server, &mut a);
    take(&mut a);

    say(&mut server, &mut a, "/join rust");
    assert_eq!(a.session.room(), "rust");
    hear(&mut server, &mut a);
    assert_eq!(take(&mut a), vec!["You joined rust".to_string()]);

    say(&mut server, &mut a, "/rooms");
    assert_eq!(take(&mut a), vec!["Rooms - rust (1)".to_string()]);
    say(&mut server, &mut a, "/users");
    assert_eq!(take(&mut a), vec!["Users - alpha".to_string()]);
    assert!(!server.rooms.contains(MAIN));
}

#[test]
fn join_is_seen_in_both_rooms() {
    let mut server = server();
    let mut a = connect_as(&mut server, "alpha");
    let mut b = connect_as(&mut server, "beta");
    let mut c = connect_as(&mut server, "gamma");
    say(&mut server, &mut c, "/join rust");
    for client in [&mut a, &mut b, &mut c] {
        hear(&mut server, client);
        take(client);
    }
    say(&mut server, &mut a, "/join rust");
    hear(&mut server, &mut b);
    hear(&mut server, &mut c);
    hear(&mut server, &mut a);
    assert_eq!(take(&mut b), vec!["alpha left".to_string()]);
    assert_eq!(take(&mut c), vec!["alpha joined".to_string()]);
    assert_eq!(take(&mut a), vec!["You joined rust".to_string()]);
    say(&mut server, &mut a, "/rooms");
    assert_eq!(take(&mut a), vec!["Rooms - rust (2), main (1)".to_string()]);
    say(&mut server, &mut a, "/users");
    assert_eq!(take(&mut a), vec!["Users - alpha, gamma".to_string()]);
}

#[test]
fn join_of_own_room_changes_nothing() {
    let mut server = server();
    let mut a = connect_as(&mut server, "alpha");
    hear(&mut server, &mut a);
    take(&mut a);
    say(&mut server, &mut a, "/join main");
    assert_eq!(take(&mut a), vec!["You are in main".to_string()]);
    hear(&mut server, &mut a);
    assert!(take(&mut a).is_empty());
}

#[test]
fn join_needs_a_name() {
    let mut server = server();
    let mut a = connect_as(&mut server, "alpha");
    take(&mut a);
    for line in ["/join", "/join r", "/join a-room-name-that-is-too-long", "/join caf\u{e9}"] {
        say(&mut server, &mut a, line);
        assert_eq!(take(&mut a), vec!["Room must be 2 - 20 alphanumeric chars".to_string()]);
    }
    assert_eq!(a.session.room(), MAIN);
}

#[test]
fn vacated_room_is_not_listed() {
    let mut server = server();
    let mut a = connect_as(&mut server, "alpha");
    let mut b = connect_as(&mut server, "beta");
    say(&mut server, &mut a, "/join foo");
    say(&mut server, &mut b, "/rooms");
    hear(&mut server, &mut b);
    assert!(take(&mut b).contains(&"Rooms - foo (1), main (1)".to_string()));
    say(&mut server, &mut a, "/join main");
    say(&mut server, &mut b, "/rooms");
    assert_eq!(take(&mut b), vec!["Rooms - main (2)".to_string()]);
    assert!(!server.rooms.contains("foo"));
}

#[test]
fn oversize_line_is_answered_and_its_end_is_swallowed() {
    let mut server = server();
    let mut a = connect_as(&mut server, "alpha");
    hear(&mut server, &mut a);
    take(&mut a);
    happen(&mut server, &mut a, Event::TooLong);
    assert_eq!(take(&mut a), vec!["Messages can only be 400 chars long".to_string()]);
    assert!(a.session.is_discarding());
    happen(&mut server, &mut a, Event::EndOfStream);
    assert_eq!(a.session.phase(), Phase::Active);
    assert!(!a.session.is_discarding());
    assert!(a.closed.is_none());
    say(&mut server, &mut a, "/users");
    assert_eq!(take(&mut a), vec!["Users - alpha".to_string()]);
    happen(&mut server, &mut a, Event::EndOfStream);
    assert_eq!(a.session.phase(), Phase::Done);
    assert_eq!(a.closed, Some(false));
}

#[test]
fn quit_is_seen_by_the_room_and_frees_the_handle() {
    let mut server = server();
    let mut a = connect_as(&mut server, "alpha");
    let mut b = connect_as(&mut server, "beta");
    hear(&mut server, &mut a);
    hear(&mut server, &mut b);
    take(&mut a);
    take(&mut b);
    say(&mut server, &mut a, "/quit");
    assert_eq!(a.closed, Some(false));
    assert_eq!(a.session.phase(), Phase::Done);
    hear(&mut server, &mut b);
    assert_eq!(take(&mut b), vec!["alpha left".to_string()]);
    assert!(!server.names.contains("alpha"));
    assert_eq!(server.names.len(), 1);
    assert_eq!(server.rooms.list_users(MAIN), Some(vec!["beta".to_string()]));
    say(&mut server, &mut b, "/quit");
    assert_eq!(server.names.len(), 0);
    assert_eq!(server.rooms.len(), 0);
}

#[test]
fn ended_session_does_nothing() {
    let mut server = server();
    let mut a = connect_as(&mut server, "alpha");
    say(&mut server, &mut a, "/quit");
    take(&mut a);
    say(&mut server, &mut a, "hello");
    happen(&mut server, &mut a, Event::Greeted);
    happen(&mut server, &mut a, Event::EndOfStream);
    assert!(take(&mut a).is_empty());
    assert_eq!(server.rooms.len(), 0);
    assert_eq!(server.names.len(), 0);
}

#[test]
fn help_is_sent_again() {
    let mut server = server();
    let mut a = connect_as(&mut server, "alpha");
    take(&mut a);
    say(&mut server, &mut a, "/help");
    assert_eq!(take(&mut a), vec![HELP_MSG.to_string()]);
    assert!(!HELP_MSG.contains('\n'));
}

#[test]
fn unknown_command_is_named() {
    let mut server = server();
    let mut a = connect_as(&mut server, "alpha");
    take(&mut a);
    say(&mut server, &mut a, "/dance now");
    assert_eq!(take(&mut a), vec!["Unrecognized command /dance, try /help".to_string()]);
    say(&mut server, &mut a, "/");
    assert_eq!(take(&mut a), vec!["Unrecognized command /, try /help".to_string()]);
    say(&mut server, &mut a, "/helpme");
    assert_eq!(take(&mut a), vec!["Unrecognized command /helpme, try /help".to_string()]);
}

#[test]
fn line_that_starts_with_a_blank_is_said() {
    let mut server = server();
    let mut a = connect_as(&mut server, "alpha");
    hear(&mut server, &mut a);
    take(&mut a);
    say(&mut server, &mut a, " /quit");
    say(&mut server, &mut a, "");
    hear(&mut server, &mut a);
    assert_eq!(take(&mut a), vec!["alpha:  /quit".to_string(), "alpha: ".to_string()]);
    assert_eq!(a.session.phase(), Phase::Active);
}

#[test]
fn read_failures_end_the_session() {
    for (fault, report) in [
        (Fault::InvalidData, false),
        (Fault::InvalidInput, false),
        (Fault::BrokenPipe, false),
        (Fault::ConnectionReset, false),
        (Fault::Other, true),
    ] {
        let mut server = server();
        let mut a = connect_as(&mut server, "alpha");
        happen(&mut server, &mut a, Event::ReadFailed(fault));
        assert_eq!(a.closed, Some(report));
        assert_eq!(a.session.phase(), Phase::Done);
        assert_eq!(server.names.len(), 0);
        assert_eq!(server.rooms.len(), 0);
    }
}

#[test]
fn write_failures_end_the_session() {
    for (fault, report) in [
        (CodecFault::TooLong, false),
        (CodecFault::Io(Fault::BrokenPipe), false),
        (CodecFault::Io(Fault::ConnectionReset), false),
        (CodecFault::Io(Fault::InvalidData), true),
        (CodecFault::Io(Fault::Other), true),
    ] {
        let mut server = server();
        let mut a = connect_as(&mut server, "alpha");
        let mut b = connect_as(&mut server, "beta");
        hear(&mut server, &mut b);
        take(&mut b);
        happen(&mut server, &mut a, Event::WriteFailed(fault));
        assert_eq!(a.closed, Some(report));
        hear(&mut server, &mut b);
        assert_eq!(take(&mut b), vec!["alpha left".to_string()]);
        assert_eq!(server.names.len(), 1);
    }
}

#[test]
fn lag_is_reported_with_the_number_dropped() {
    let mut server = server();
    let mut a = connect_as(&mut server, "alpha");
    take(&mut a);
    happen(&mut server, &mut a, Event::Lagged(7));
    assert_eq!(
        take(&mut a),
        vec!["Server is very busy and dropped 7 messages, sorry!".to_string()]
    );
    assert_eq!(a.session.phase(), Phase::Active);
}

#[test]
fn slow_reader_is_told_of_the_loss_and_goes_on_with_later_events() {
    let mut server = server();
    let mut a = connect_as(&mut server, "alpha");
    let mut b = connect_as(&mut server, "beta");
    hear(&mut server, &mut a);
    hear(&mut server, &mut b);
    take(&mut a);
    take(&mut b);
    for i in 0..1030 {
        say(&mut server, &mut a, &format!("line {}", i));
    }
    hear(&mut server, &mut b);
    let saw = take(&mut b);
    assert_eq!(saw.len(), 1025);
    assert_eq!(saw[0], "Server is very busy and dropped 6 messages, sorry!");
    assert_eq!(saw[1], "alpha: line 6");
    assert_eq!(saw[1024], "alpha: line 1029");
}

#[test]
fn closed_channel_brings_the_session_back_to_main() {
    let mut server = server();
    let mut a = connect_as(&mut server, "alpha");
    say(&mut server, &mut a, "/join rust");
    hear(&mut server, &mut a);
    take(&mut a);
    happen(&mut server, &mut a, Event::ChannelClosed);
    assert_eq!(a.session.room(), MAIN);
    assert!(server.rooms.contains(MAIN));
    assert!(!server.rooms.contains("rust"));
    hear(&mut server, &mut a);
    assert_eq!(take(&mut a), vec!["You joined main".to_string()]);
}

#[test]
fn presence_lines_name_the_peer_or_the_room() {
    let mut server = server();
    let mut a = connect_as(&mut server, "alpha");
    take(&mut a);
    happen(&mut server, &mut a, Event::Delivered(RoomEvent::Joined("beta".to_string())));
    happen(&mut server, &mut a, Event::Delivered(RoomEvent::Left("beta".to_string())));
    happen(&mut server, &mut a, Event::Delivered(RoomEvent::Joined("alpha".to_string())));
    happen(&mut server, &mut a, Event::Delivered(RoomEvent::Left("alpha".to_string())));
    happen(&mut server, &mut a, Event::Delivered(RoomEvent::Msg("beta: hi".to_string())));
    assert_eq!(take(&mut a), vec![
        "beta joined".to_string(),
        "beta left".to_string(),
        "You joined main".to_string(),
        "You left main".to_string(),
        "beta: hi".to_string(),
    ]);
}

#[test]
fn step_with_given_counts_keeps_or_removes_the_room() {
    let mut server = server();
    let mut a = connect_as(&mut server, "alpha");
    let seen = Observed { receivers: 2, listing: Vec::new() };
    let actions = a.session.step_seen(
        &mut server.names,
        &mut server.rooms,
        Event::Line("/join rust".to_string()),
        &seen,
    );
    perform(&mut a, actions);
    assert_eq!(server.rooms.list_users(MAIN), Some(Vec::new()));
    assert_eq!(server.rooms.list_users("rust"), Some(vec!["alpha".to_string()]));

    let seen = Observed { receivers: 1, listing: vec![("zoo".to_string(), 3)] };
    let actions = a.session.step_seen(
        &mut server.names,
        &mut server.rooms,
        Event::Line("/rooms".to_string()),
        &seen,
    );
    perform(&mut a, actions);
    assert_eq!(a.seen.last().unwrap(), "Rooms - zoo (3)");
    let actions = a.session.step_seen(
        &mut server.names,
        &mut server.rooms,
        Event::Line("/quit".to_string()),
        &seen,
    );
    perform(&mut a, actions);
    assert!(!server.rooms.contains("rust"));
    assert!(server.rooms.contains(MAIN));
}

#[test]
fn registry_holds_one_handle_for_each_session() {
    let mut server = server();
    let mut generator = NameGenerator::new();
    let mut clients = Vec::new();
    for _ in 0..20 {
        let handle = server.names.reserve_unique(&mut generator).unwrap();
        let (session, actions) = Session::open(handle);
        let mut client = Client { session, tx: None, rx: None, seen: Vec::new(), closed: None };
        perform(&mut client, actions);
        happen(&mut server, &mut client, Event::Greeted);
        clients.push(client);
        assert_eq!(server.names.len(), clients.len());
    }
    say(&mut server, &mut clients[3], "/name zed");
    assert_eq!(server.names.len(), 20);
    say(&mut server, &mut clients[4], "/join rust");
    assert_eq!(server.names.len(), 20);
    let mut left = 20;
    for client in clients.iter_mut() {
        say(&mut server, client, "/quit");
        left -= 1;
        assert_eq!(server.names.len(), left);
    }
    assert_eq!(server.rooms.len(), 0);
}

#[test]
fn rooms_list_the_sessions_in_them() {
    let mut server = server();
    let mut a = connect_as(&mut server, "alpha");
    let mut b = connect_as(&mut server, "beta");
    let mut c = connect_as(&mut server, "gamma");
    say(&mut server, &mut b, "/join rust");
    say(&mut server, &mut c, "/join rust");
    say(&mut server, &mut c, "/name delta");
    assert_eq!(server.rooms.list_users(MAIN), Some(vec!["alpha".to_string()]));
    assert_eq!(
        server.rooms.list_users("rust"),
        Some(vec!["beta".to_string(), "delta".to_string()])
    );
    say(&mut server, &mut a, "/quit");
    assert_eq!(server.rooms.list_users(MAIN), None);
    assert_eq!(server.rooms.len(), 1);
}

#[test]
fn lines_written_hold_no_line_feed() {
    let mut server = server();
    let mut a = connect_as(&mut server, "alpha");
    let mut b = connect_as(&mut server, "beta");
    take(&mut a);
    take(&mut b);
    for line in
        ["hi", "/help", "/name carl", "/name carl", "/join r", "/join rust", "/rooms", "/users", "/x"]
    {
        say(&mut server, &mut a, line);
        hear(&mut server, &mut a);
        hear(&mut server, &mut b);
    }
    happen(&mut server, &mut a, Event::TooLong);
    happen(&mut server, &mut a, Event::Lagged(3));
    let lines = take(&mut a);
    assert!(lines.len() >= 9);
    for line in lines.iter().chain(take(&mut b).iter()) {
        assert!(!line.contains('\n'), "{}", line);
    }
}

#[test]
fn accept_reserves_a_handle_and_greets() {
    let mut names = HandleRegistry::new();
    let mut generator = NameGenerator::new();
    let (session, actions) = Session::accept(&mut names, &mut generator).unwrap();
    assert_eq!(session.phase(), Phase::Greeting);
    assert!(valid_name(Some(session.handle())));
    assert!(names.contains(session.handle()));
    assert_eq!(names.len(), 1);
    match &actions[..] {
        [Action::Write(line)] => {
            assert_eq!(line, &format!("{}\nYou are {}", HELP_MSG, session.handle()))
        }
        _ => panic!("the greeting is the one action"),
    }
    let (other, _) = Session::accept(&mut names, &mut generator).unwrap();
    assert_ne!(other.handle(), session.handle());
    assert_eq!(names.len(), 2);
}

#[test]
fn accept_turns_away_when_every_handle_is_taken() {
    let mut names = HandleRegistry::new();
    let mut generator = NameGenerator::new();
    let mut accepted = 0;
    while Session::accept(&mut names, &mut generator).is_some() {
        accepted += 1;
        assert!(accepted <= 576);
    }
    assert_eq!(names.len(), accepted);
    assert!(Session::accept(&mut names, &mut generator).is_none());
}

#[test]
fn subscribers_of_a_room_see_its_events_in_one_order() {
    let mut server = server();
    let mut a = connect_as(&mut server, "alpha");
    let mut b = connect_as(&mut server, "beta");
    let mut c = connect_as(&mut server, "gamma");
    for client in [&mut a, &mut b, &mut c] {
        hear(&mut server, client);
        take(client);
    }
    say(&mut server, &mut a, "one");
    say(&mut server, &mut b, "two");
    say(&mut server, &mut a, "/name alf");
    say(&mut server, &mut c, "three");
    say(&mut server, &mut b, "/join rust");
    say(&mut server, &mut a, "four");
    hear(&mut server, &mut a);
    hear(&mut server, &mut c);
    let expected = vec![
        "alpha: one".to_string(),
        "beta: two".to_string(),
        "alpha is now alf".to_string(),
        "gamma: three".to_string(),
        "beta left".to_string(),
        "alf: four".to_string(),
    ];
    assert_eq!(take(&mut a), expected);
    assert_eq!(take(&mut c), expected);
    hear(&mut server, &mut b);
    assert_eq!(take(&mut b), vec!["You joined rust".to_string()]);
}
