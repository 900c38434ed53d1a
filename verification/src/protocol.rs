//! The wire protocol: the commands a client may send and the lines the
//! server writes.
use vstd::prelude::*;
use crate::listing::{entry_view, entry_views};
use crate::names::texts;
use crate::text::{
    chars_of, decimal, is_blank, lemma_decimal_newline_free, lemma_joined_newline_free,
    lemma_separated_newline_free, newline_free, nth_word, push_decimal, push_separated, same_text,
    separated, skip_blanks, word,
};

verus! {

/// The room in which every session starts.
pub const MAIN: &'static str = "main";

/// The longest line, in bytes, that a client may send.
pub const MAX_MSG_LEN: usize = 400;

/// The longest line, in bytes, that the server writes.
pub const MAX_REPLY_LEN: usize = MAX_MSG_LEN + 100;

/// The banner that lists the commands.
pub const HELP_MSG: &'static str =
    "Commands: /help | /name <name> | /join <room> | /rooms | /users | /quit";

/// The name of the first room is a name.
pub proof fn lemma_main_is_name()
    ensures
        crate::names::is_name(MAIN@),
{
    reveal_strlit("main");
}

/// What a line from a client asks for.
#[derive(Debug)]
pub enum Command {
    /// `/help`
    Help,
    /// `/name`, with the new handle where one is given
    Name(Option<String>),
    /// `/join`, with the room where one is given
    Join(Option<String>),
    /// `/rooms`
    Rooms,
    /// `/users`
    Users,
    /// `/quit`
    Quit,
    /// Another word that begins with `/`
    Unknown(String),
    /// No command: the line is said to the room
    Say,
}

/// What a command says, as text.
pub enum CommandText {
    Help,
    Name(Option<Seq<char>>),
    Join(Option<Seq<char>>),
    Rooms,
    Users,
    Quit,
    Unknown(Seq<char>),
    Say,
}

/// The text of an optional string.
pub open spec fn option_text(s: Option<String>) -> Option<Seq<char>> {
    match s {
        Some(t) => Some(t@),
        None => None,
    }
}

impl View for Command {
    type V = CommandText;

    open spec fn view(&self) -> CommandText {
        match self {
            Command::Help => CommandText::Help,
            Command::Name(arg) => CommandText::Name(option_text(*arg)),
            Command::Join(arg) => CommandText::Join(option_text(*arg)),
            Command::Rooms => CommandText::Rooms,
            Command::Users => CommandText::Users,
            Command::Quit => CommandText::Quit,
            Command::Unknown(token) => CommandText::Unknown(token@),
            Command::Say => CommandText::Say,
        }
    }
}

/// The command of a line. A line is a command when its first character is
/// `/`; its first word then says which one, and its second word is the
/// argument.
pub open spec fn command_of(line: Seq<char>) -> CommandText {
    if line.len() == 0 || line[0] != '/' {
        CommandText::Say
    } else {
        let token = word(line, 0).unwrap();
        if token == "/help"@ {
            CommandText::Help
        } else if token == "/name"@ {
            CommandText::Name(word(line, 1))
        } else if token == "/join"@ {
            CommandText::Join(word(line, 1))
        } else if token == "/rooms"@ {
            CommandText::Rooms
        } else if token == "/users"@ {
            CommandText::Users
        } else if token == "/quit"@ {
            CommandText::Quit
        } else {
            CommandText::Unknown(token)
        }
    }
}

/// Reads the command of a line.
pub fn parse_command(line: &str) -> (command: Command)
    ensures
        command@ == command_of(line@),
{
    let chars = chars_of(line);
    if chars.len() == 0 || chars[0] != '/' {
        return Command::Say;
    }
    assert(!is_blank(chars@[0]));
    assert(skip_blanks(chars@, 0) == 0);
    assert(word(chars@, 0) is Some);
    let token = match nth_word(&chars, 0) {
        Some(token) => token,
        None => String::new(),
    };
    if same_text(token.as_str(), "/help") {
        Command::Help
    } else if same_text(token.as_str(), "/name") {
        Command::Name(nth_word(&chars, 1))
    } else if same_text(token.as_str(), "/join") {
        Command::Join(nth_word(&chars, 1))
    } else if same_text(token.as_str(), "/rooms") {
        Command::Rooms
    } else if same_text(token.as_str(), "/users") {
        Command::Users
    } else if same_text(token.as_str(), "/quit") {
        Command::Quit
    } else {
        Command::Unknown(token)
    }
}

/// The first frame of a session: the banner and, after a line feed, the
/// handle that was given.
pub open spec fn greeting(handle: Seq<char>) -> Seq<char> {
    HELP_MSG@ + "\nYou are "@ + handle
}

pub open spec fn you_joined(room: Seq<char>) -> Seq<char> {
    "You joined "@ + room
}

pub open spec fn peer_joined(handle: Seq<char>) -> Seq<char> {
    handle + " joined"@
}

pub open spec fn you_left(room: Seq<char>) -> Seq<char> {
    "You left "@ + room
}

pub open spec fn peer_left(handle: Seq<char>) -> Seq<char> {
    handle + " left"@
}

/// What a user says, as the room sees it.
pub open spec fn said(handle: Seq<char>, line: Seq<char>) -> Seq<char> {
    handle + ": "@ + line
}

pub open spec fn now_named(prev: Seq<char>, next: Seq<char>) -> Seq<char> {
    prev + " is now "@ + next
}

pub open spec fn already_taken(name: Seq<char>) -> Seq<char> {
    name + " is already taken"@
}

pub open spec fn bad_name() -> Seq<char> {
    "Name must be 2 - 20 alphanumeric chars"@
}

pub open spec fn bad_room() -> Seq<char> {
    "Room must be 2 - 20 alphanumeric chars"@
}

pub open spec fn you_are_in(room: Seq<char>) -> Seq<char> {
    "You are in "@ + room
}

pub open spec fn too_long() -> Seq<char> {
    "Messages can only be "@ + decimal(MAX_MSG_LEN as nat) + " chars long"@
}

pub open spec fn dropped(missed: nat) -> Seq<char> {
    "Server is very busy and dropped "@ + decimal(missed) + " messages, sorry!"@
}

pub open spec fn unrecognized(token: Seq<char>) -> Seq<char> {
    "Unrecognized command "@ + token + ", try /help"@
}

/// A room in the list of rooms: its name and, in brackets, its count.
pub open spec fn room_item(entry: (Seq<char>, nat)) -> Seq<char> {
    entry.0 + " ("@ + decimal(entry.1) + ")"@
}

/// The list of rooms. Without rooms the line is the title without its
/// dash.
pub open spec fn rooms_line(listing: Seq<(Seq<char>, nat)>) -> Seq<char> {
    if listing.len() == 0 {
        "Rooms "@
    } else {
        "Rooms - "@ + separated(listing.map_values(|e: (Seq<char>, nat)| room_item(e)), ", "@)
    }
}

/// The list of users. Without users the line is the title without its
/// dash.
pub open spec fn users_line(handles: Seq<Seq<char>>) -> Seq<char> {
    if handles.len() == 0 {
        "Users "@
    } else {
        "Users - "@ + separated(handles, ", "@)
    }
}

/// Two pieces of text, one after the other.
fn pair(a: &str, b: &str) -> (line: String)
    ensures
        line@ == a@ + b@,
{
    let mut line = String::from_str(a);
    line.append(b);
    line
}

/// Three pieces of text, one after the other.
fn triple(a: &str, b: &str, c: &str) -> (line: String)
    ensures
        line@ == a@ + b@ + c@,
{
    let mut line = String::from_str(a);
    line.append(b);
    line.append(c);
    line
}

pub fn greeting_line(handle: &str) -> (line: String)
    ensures
        line@ == greeting(handle@),
{
    triple(HELP_MSG, "\nYou are ", handle)
}

pub fn you_joined_line(room: &str) -> (line: String)
    ensures
        line@ == you_joined(room@),
{
    pair("You joined ", room)
}

pub fn peer_joined_line(handle: &str) -> (line: String)
    ensures
        line@ == peer_joined(handle@),
{
    pair(handle, " joined")
}

pub fn you_left_line(room: &str) -> (line: String)
    ensures
        line@ == you_left(room@),
{
    pair("You left ", room)
}

pub fn peer_left_line(handle: &str) -> (line: String)
    ensures
        line@ == peer_left(handle@),
{
    pair(handle, " left")
}

pub fn said_line(handle: &str, text: &str) -> (line: String)
    ensures
        line@ == said(handle@, text@),
{
    triple(handle, ": ", text)
}

pub fn now_named_line(prev: &str, next: &str) -> (line: String)
    ensures
        line@ == now_named(prev@, next@),
{
    triple(prev, " is now ", next)
}

pub fn already_taken_line(name: &str) -> (line: String)
    ensures
        line@ == already_taken(name@),
{
    pair(name, " is already taken")
}

pub fn bad_name_line() -> (line: String)
    ensures
        line@ == bad_name(),
{
    String::from_str("Name must be 2 - 20 alphanumeric chars")
}

pub fn bad_room_line() -> (line: String)
    ensures
        line@ == bad_room(),
{
    String::from_str("Room must be 2 - 20 alphanumeric chars")
}

pub fn you_are_in_line(room: &str) -> (line: String)
    ensures
        line@ == you_are_in(room@),
{
    pair("You are in ", room)
}

pub fn too_long_line() -> (line: String)
    ensures
        line@ == too_long(),
{
    let mut line = String::from_str("Messages can only be ");
    push_decimal(&mut line, MAX_MSG_LEN as u64);
    line.append(" chars long");
    line
}

pub fn dropped_line(missed: u64) -> (line: String)
    ensures
        line@ == dropped(missed as nat),
{
    let mut line = String::from_str("Server is very busy and dropped ");
    push_decimal(&mut line, missed);
    line.append(" messages, sorry!");
    line
}

pub fn unrecognized_line(token: &str) -> (line: String)
    ensures
        line@ == unrecognized(token@),
{
    triple("Unrecognized command ", token, ", try /help")
}

pub fn rooms_line_of(listing: &Vec<(String, usize)>) -> (line: String)
    ensures
        line@ == rooms_line(entry_views(listing@)),
{
    if listing.len() == 0 {
        return String::from_str("Rooms ");
    }
    let ghost wanted = entry_views(listing@).map_values(|e: (Seq<char>, nat)| room_item(e));
    let mut items: Vec<String> = Vec::new();
    let mut i: usize = 0;
    while i < listing.len()
        invariant
            i <= listing.len(),
            wanted == entry_views(listing@).map_values(|e: (Seq<char>, nat)| room_item(e)),
            texts(items@) =~= wanted.take(i as int),
        decreases listing.len() - i,
    {
        let mut item = String::from_str(listing[i].0.as_str());
        item.append(" (");
        push_decimal(&mut item, listing[i].1 as u64);
        item.append(")");
        proof {
            assert(item@ == room_item(entry_view(listing@[i as int])));
            assert(wanted[i as int] == room_item(entry_views(listing@)[i as int]));
            assert(wanted.take(i + 1) =~= wanted.take(i as int).push(wanted[i as int]));
            assert(texts(items@.push(item)) =~= texts(items@).push(item@));
        }
        items.push(item);
        i += 1;
    }
    assert(wanted.take(listing.len() as int) =~= wanted);
    let mut line = String::from_str("Rooms - ");
    push_separated(&mut line, &items, ", ");
    line
}

pub fn users_line_of(handles: &Vec<String>) -> (line: String)
    ensures
        line@ == users_line(texts(handles@)),
{
    if handles.len() == 0 {
        return String::from_str("Users ");
    }
    let mut line = String::from_str("Users - ");
    push_separated(&mut line, handles, ", ");
    line
}

/// A name has no line feed.
pub proof fn lemma_name_newline_free(name: Seq<char>)
    requires
        crate::names::is_name(name),
    ensures
        newline_free(name),
{
    assert forall|k: int| 0 <= k < name.len() implies name[k] != '\n' by {
        assert(crate::names::is_name_char(name[k]));
    }
}

/// The banner and the lines without a variable part have no line feed.
pub proof fn lemma_fixed_lines_single()
    ensures
        newline_free(HELP_MSG@),
        newline_free(bad_name()),
        newline_free(bad_room()),
        newline_free(too_long()),
        newline_free(MAIN@),
{
    reveal_strlit("Commands: /help | /name <name> | /join <room> | /rooms | /users | /quit");
    reveal_strlit("Name must be 2 - 20 alphanumeric chars");
    reveal_strlit("Room must be 2 - 20 alphanumeric chars");
    reveal_strlit("Messages can only be ");
    reveal_strlit(" chars long");
    reveal_strlit("main");
    lemma_decimal_newline_free(MAX_MSG_LEN as nat);
    lemma_joined_newline_free("Messages can only be "@, decimal(MAX_MSG_LEN as nat));
    lemma_joined_newline_free(
        "Messages can only be "@ + decimal(MAX_MSG_LEN as nat),
        " chars long"@,
    );
}

/// The lines with one variable part have no line feed where that part has
/// none.
pub proof fn lemma_lines_of_one_single(a: Seq<char>)
    requires
        newline_free(a),
    ensures
        newline_free(you_joined(a)),
        newline_free(peer_joined(a)),
        newline_free(you_left(a)),
        newline_free(peer_left(a)),
        newline_free(already_taken(a)),
        newline_free(you_are_in(a)),
        newline_free(unrecognized(a)),
{
    reveal_strlit("You joined ");
    reveal_strlit(" joined");
    reveal_strlit("You left ");
    reveal_strlit(" left");
    reveal_strlit(" is already taken");
    reveal_strlit("You are in ");
    reveal_strlit("Unrecognized command ");
    reveal_strlit(", try /help");
    lemma_joined_newline_free("You joined "@, a);
    lemma_joined_newline_free(a, " joined"@);
    lemma_joined_newline_free("You left "@, a);
    lemma_joined_newline_free(a, " left"@);
    lemma_joined_newline_free(a, " is already taken"@);
    lemma_joined_newline_free("You are in "@, a);
    lemma_joined_newline_free("Unrecognized command "@, a);
    lemma_joined_newline_free("Unrecognized command "@ + a, ", try /help"@);
}

/// The lines with two variable parts have no line feed where those parts
/// have none, and the notice of dropped events has none.
pub proof fn lemma_lines_of_two_single(a: Seq<char>, b: Seq<char>, missed: nat)
    requires
        newline_free(a),
        newline_free(b),
    ensures
        newline_free(said(a, b)),
        newline_free(now_named(a, b)),
        newline_free(dropped(missed)),
{
    reveal_strlit(": ");
    reveal_strlit(" is now ");
    reveal_strlit("Server is very busy and dropped ");
    reveal_strlit(" messages, sorry!");
    lemma_joined_newline_free(a, ": "@);
    lemma_joined_newline_free(a + ": "@, b);
    lemma_joined_newline_free(a, " is now "@);
    lemma_joined_newline_free(a + " is now "@, b);
    lemma_decimal_newline_free(missed);
    lemma_joined_newline_free("Server is very busy and dropped "@, decimal(missed));
    lemma_joined_newline_free(
        "Server is very busy and dropped "@ + decimal(missed),
        " messages, sorry!"@,
    );
}

/// The lists of rooms and of users have no line feed where the names have
/// none.
pub proof fn lemma_lists_single(listing: Seq<(Seq<char>, nat)>, handles: Seq<Seq<char>>)
    requires
        forall|i: int| 0 <= i < listing.len() ==> newline_free((#[trigger] listing[i]).0),
        forall|i: int| 0 <= i < handles.len() ==> newline_free(#[trigger] handles[i]),
    ensures
        newline_free(rooms_line(listing)),
        newline_free(users_line(handles)),
{
    reveal_strlit("Rooms ");
    reveal_strlit("Rooms - ");
    reveal_strlit("Users ");
    reveal_strlit("Users - ");
    reveal_strlit(", ");
    reveal_strlit(" (");
    reveal_strlit(")");
    let items = listing.map_values(|e: (Seq<char>, nat)| room_item(e));
    assert forall|i: int| 0 <= i < items.len() implies newline_free(#[trigger] items[i]) by {
        let e = listing[i];
        lemma_decimal_newline_free(e.1);
        lemma_joined_newline_free(e.0, " ("@);
        lemma_joined_newline_free(e.0 + " ("@, decimal(e.1));
        lemma_joined_newline_free(e.0 + " ("@ + decimal(e.1), ")"@);
    }
    lemma_separated_newline_free(items, ", "@);
    lemma_joined_newline_free("Rooms - "@, separated(items, ", "@));
    lemma_separated_newline_free(handles, ", "@);
    lemma_joined_newline_free("Users - "@, separated(handles, ", "@));
}

/// The greeting holds one line feed, the one between the banner and the
/// handle, where the handle has none.
pub proof fn lemma_greeting_has_one_newline(handle: Seq<char>)
    requires
        newline_free(handle),
    ensures
        greeting(handle)[HELP_MSG@.len() as int] == '\n',
        forall|k: int|
            0 <= k < greeting(handle).len() && k != HELP_MSG@.len() ==> greeting(handle)[k] != '\n',
{
    lemma_fixed_lines_single();
    reveal_strlit("\nYou are ");
    let head = HELP_MSG@;
    let mid = "\nYou are "@;
    let g = greeting(handle);
    assert(g[head.len() as int] == mid[0]);
    assert forall|k: int| 0 <= k < g.len() && k != head.len() implies g[k] != '\n' by {
        if k < head.len() {
            assert(g[k] == head[k]);
        } else if k < head.len() + mid.len() {
            assert(g[k] == mid[k - head.len()]);
        } else {
            assert(g[k] == handle[k - head.len() - mid.len()]);
        }
    }
}

} // verus!
