use chat_server::protocol::{
    already_taken_line, bad_name_line, bad_room_line, dropped_line, greeting_line,
    now_named_line, parse_command, peer_joined_line, peer_left_line, rooms_line_of, said_line,
    too_long_line, unrecognized_line, users_line_of, you_are_in_line, you_joined_line,
    you_left_line, Command, HELP_MSG, MAIN, MAX_MSG_LEN, MAX_REPLY_LEN,
};
use chat_server::text::{decimal_text, nth_word, same_text, text_less};
use tokio_util::bytes::BytesMut;
use tokio_util::codec::{Decoder, LinesCodec, LinesCodecError};

#[test]
fn commands_are_told_by_their_first_word() {
    assert!(matches!(parse_command("/help"), Command::Help));
    assert!(matches!(parse_command("/help me"), Command::Help));
    assert!(matches!(parse_command("/rooms"), Command::Rooms));
    assert!(matches!(parse_command("/users\t"), Command::Users));
    assert!(matches!(parse_command("/quit now"), Command::Quit));
    assert!(matches!(parse_command("hello"), Command::Say));
    assert!(matches!(parse_command(""), Command::Say));
    assert!(matches!(parse_command(" /help"), Command::Say));
    assert!(matches!(parse_command("help /help"), Command::Say));
}

#[test]
fn commands_carry_their_second_word() {
    match parse_command("/name  bob  the builder") {
        Command::Name(Some(arg)) => assert_eq!(arg, "bob"),
        _ => panic!("not a rename"),
    }
    assert!(matches!(parse_command("/name"), Command::Name(None)));
    assert!(matches!(parse_command("/name   "), Command::Name(None)));
    match parse_command("/join\trust\r") {
        Command::Join(Some(arg)) => assert_eq!(arg, "rust"),
        _ => panic!("not a join"),
    }
    assert!(matches!(parse_command("/join"), Command::Join(None)));
}

#[test]
fn other_words_with_a_slash_are_unknown() {
    for (line, token) in
        [("/", "/"), ("/helpx", "/helpx"), ("/Help", "/Help"), ("/names bob", "/names"), ("//", "//")]
    {
        match parse_command(line) {
            Command::Unknown(found) => assert_eq!(found, token),
            _ => panic!("{} is no known command", line),
        }
    }
}

#[test]
fn lines_follow_their_templates() {
    assert_eq!(greeting_line("alpha"), format!("{}\nYou are alpha", HELP_MSG));
    assert_eq!(you_joined_line("main"), "You joined main");
    assert_eq!(peer_joined_line("beta"), "beta joined");
    assert_eq!(you_left_line("main"), "You left main");
    assert_eq!(peer_left_line("beta"), "beta left");
    assert_eq!(said_line("alpha", "hi: there"), "alpha: hi: there");
    assert_eq!(now_named_line("alpha", "bob"), "alpha is now bob");
    assert_eq!(already_taken_line("bob"), "bob is already taken");
    assert_eq!(bad_name_line(), "Name must be 2 - 20 alphanumeric chars");
    assert_eq!(bad_room_line(), "Room must be 2 - 20 alphanumeric chars");
    assert_eq!(you_are_in_line("main"), "You are in main");
    assert_eq!(too_long_line(), "Messages can only be 400 chars long");
    assert_eq!(dropped_line(0), "Server is very busy and dropped 0 messages, sorry!");
    assert_eq!(
        dropped_line(u64::MAX),
        "Server is very busy and dropped 18446744073709551615 messages, sorry!"
    );
    assert_eq!(unrecognized_line("/x"), "Unrecognized command /x, try /help");
}

#[test]
fn lists_are_separated_by_commas() {
    let rooms = vec![("main".to_string(), 12), ("rust".to_string(), 3), ("zoo".to_string(), 0)];
    assert_eq!(rooms_line_of(&rooms), "Rooms - main (12), rust (3), zoo (0)");
    assert_eq!(rooms_line_of(&rooms[..1].to_vec()), "Rooms - main (12)");
    assert_eq!(rooms_line_of(&Vec::new()), "Rooms ");
    let users = vec!["al".to_string(), "bo".to_string()];
    assert_eq!(users_line_of(&users), "Users - al, bo");
    assert_eq!(users_line_of(&users[..1].to_vec()), "Users - al");
    assert_eq!(users_line_of(&Vec::new()), "Users ");
}

#[test]
fn constants_of_the_protocol() {
    assert_eq!(MAIN, "main");
    assert_eq!(MAX_MSG_LEN, 400);
    assert_eq!(MAX_REPLY_LEN, MAX_MSG_LEN + 100);
    assert!(!HELP_MSG.contains('\n'));
    for command in ["/help", "/name", "/join", "/rooms", "/users", "/quit"] {
        assert!(HELP_MSG.contains(command));
    }
}

#[test]
fn line_of_400_bytes_is_framed_and_one_of_401_is_not() {
    let mut codec = LinesCodec::new_with_max_length(MAX_MSG_LEN);
    let mut buf = BytesMut::new();
    buf.extend_from_slice("a".repeat(400).as_bytes());
    buf.extend_from_slice(b"\n");
    match codec.decode(&mut buf) {
        Ok(Some(line)) => {
            assert_eq!(line.len(), 400);
            assert!(matches!(parse_command(&line), Command::Say));
        }
        _ => panic!("a line of 400 bytes is framed"),
    }
    buf.extend_from_slice("b".repeat(401).as_bytes());
    buf.extend_from_slice(b"\n/users\n");
    assert!(matches!(codec.decode(&mut buf), Err(LinesCodecError::MaxLineLengthExceeded)));
    match codec.decode(&mut buf) {
        Ok(Some(line)) => assert!(matches!(parse_command(&line), Command::Users)),
        _ => panic!("the line after the long one is framed"),
    }
}

#[test]
fn decimal_text_writes_numbers() {
    assert_eq!(decimal_text(0), "0");
    assert_eq!(decimal_text(7), "7");
    assert_eq!(decimal_text(10), "10");
    assert_eq!(decimal_text(42069), "42069");
    assert_eq!(decimal_text(1000000), "1000000");
    assert_eq!(decimal_text(u64::MAX), u64::MAX.to_string());
}

#[test]
fn words_are_split_at_blanks() {
    let line: Vec<char> = "  one\ttwo \r\n three\u{c}four  ".chars().collect();
    assert_eq!(nth_word(&line, 0), Some("one".to_string()));
    assert_eq!(nth_word(&line, 1), Some("two".to_string()));
    assert_eq!(nth_word(&line, 2), Some("three".to_string()));
    assert_eq!(nth_word(&line, 3), Some("four".to_string()));
    assert_eq!(nth_word(&line, 4), None);
    let line: Vec<char> = "a\u{a0}b".chars().collect();
    assert_eq!(nth_word(&line, 0), Some("a\u{a0}b".to_string()));
    assert_eq!(nth_word(&Vec::new(), 0), None);
}

#[test]
fn texts_are_compared_by_characters() {
    assert!(same_text("abc", "abc"));
    assert!(!same_text("abc", "abd"));
    assert!(!same_text("abc", "ab"));
    assert!(same_text("", ""));
    for (a, b) in [("a", "b"), ("", "a"), ("ab", "abc"), ("Z", "a"), ("a", "\u{e9}"), ("-", "_")] {
        assert!(text_less(a, b), "{} {}", a, b);
        assert!(!text_less(b, a), "{} {}", b, a);
        assert!(a < b);
    }
    assert!(!text_less("same", "same"));
}
