//! The session of one client: what it does, event by event.
//!
//! A session neither reads nor writes. Whoever runs it hands it each event
//! and carries out the actions that it answers with, in their order.
use vstd::prelude::*;
use tokio::sync::broadcast::Sender;
use crate::listing::{entry_views, in_order, is_listing_of, lemma_in_order};
use crate::names::{is_name, texts, valid_name};
use crate::protocol::{
    already_taken, already_taken_line, bad_name, bad_name_line, bad_room, bad_room_line,
    command_of, dropped, dropped_line, greeting, greeting_line, now_named, now_named_line,
    parse_command, peer_joined, peer_joined_line, peer_left, peer_left_line, rooms_line,
    rooms_line_of, said, said_line, too_long, too_long_line, unrecognized, unrecognized_line,
    users_line, users_line_of, you_are_in, you_are_in_line, you_joined, you_joined_line,
    you_left, you_left_line, Command, CommandText, HELP_MSG, MAIN,
};
use crate::generator::NameGenerator;
use crate::registry::{first_free, HandleRegistry, TRIES};
use crate::rooms::{
    capacity_of, channel_of, joined, left, listing_fits, renamed, same_channels, users_of,
    Directory, RoomEvent, RoomEventText, Rooms, ROOM_CHANNEL_CAPACITY,
};
use crate::text::{newline_free, same_text};

verus! {

/// Where a session stands.
#[derive(Clone, Copy, Debug, PartialEq, Eq, Structural)]
pub enum Phase {
    /// The greeting is on its way; the session is in no room yet.
    Greeting,
    /// The session is in a room and takes lines and events.
    Active,
    /// The session has ended.
    Done,
}

/// The kinds of I/O failure that a session tells apart.
#[derive(Clone, Copy, Debug, PartialEq, Eq, Structural)]
pub enum Fault {
    InvalidData,
    InvalidInput,
    BrokenPipe,
    ConnectionReset,
    Other,
}

/// How the line framing may fail.
#[derive(Clone, Copy, Debug, PartialEq, Eq, Structural)]
pub enum CodecFault {
    /// A line was longer than the framing allows.
    TooLong,
    /// The transport failed.
    Io(Fault),
}

/// What may happen to a session.
#[derive(Debug)]
pub enum Event {
    /// The greeting has been written.
    Greeted,
    /// The client has sent this line.
    Line(String),
    /// The client has sent a line that is too long.
    TooLong,
    /// Reading from the client has failed.
    ReadFailed(Fault),
    /// The stream of lines from the client has ended.
    EndOfStream,
    /// The room's channel has delivered this event.
    Delivered(RoomEvent),
    /// The room's channel has dropped this many events for the session.
    Lagged(u64),
    /// The room's channel is closed.
    ChannelClosed,
    /// Writing a line to the client has failed.
    WriteFailed(CodecFault),
}

/// What an event says, as text.
pub enum EventText {
    Greeted,
    Line(Seq<char>),
    TooLong,
    ReadFailed(Fault),
    EndOfStream,
    Delivered(RoomEventText),
    Lagged(nat),
    ChannelClosed,
    WriteFailed(CodecFault),
}

impl View for Event {
    type V = EventText;

    open spec fn view(&self) -> EventText {
        match self {
            Event::Greeted => EventText::Greeted,
            Event::Line(line) => EventText::Line(line@),
            Event::TooLong => EventText::TooLong,
            Event::ReadFailed(fault) => EventText::ReadFailed(*fault),
            Event::EndOfStream => EventText::EndOfStream,
            Event::Delivered(event) => EventText::Delivered(event@),
            Event::Lagged(missed) => EventText::Lagged(*missed as nat),
            Event::ChannelClosed => EventText::ChannelClosed,
            Event::WriteFailed(fault) => EventText::WriteFailed(*fault),
        }
    }
}

/// What the runner of a session is to do. Publishing and entering need no
/// waiting: the runner does them at once, before another session takes a
/// step, so that the others see a step and its events as one.
#[derive(Debug)]
pub enum Action {
    /// Write this line to the client.
    Write(String),
    /// Send this event on the sending side that the session uses.
    Publish(RoomEvent),
    /// The session is now in the room of this name: use this sending side
    /// from now on, and subscribe to it afresh.
    Enter(String, Sender<RoomEvent>),
    /// End the session. The flag says whether the failure that ended it is
    /// one to report.
    Close(bool),
}

/// What an action says, as text.
pub enum ActionText {
    Write(Seq<char>),
    Publish(RoomEventText),
    Enter(Seq<char>),
    Close(bool),
}

impl View for Action {
    type V = ActionText;

    open spec fn view(&self) -> ActionText {
        match self {
            Action::Write(line) => ActionText::Write(line@),
            Action::Publish(event) => ActionText::Publish(event@),
            Action::Enter(room, _) => ActionText::Enter(room@),
            Action::Close(report) => ActionText::Close(*report),
        }
    }
}

/// What a sequence of actions says, in order.
pub open spec fn action_texts(actions: Seq<Action>) -> Seq<ActionText> {
    actions.map_values(|a: Action| a@)
}

/// What a session knows of itself.
pub struct SessionView {
    pub handle: Seq<char>,
    pub room: Seq<char>,
    pub discarding: bool,
    pub phase: Phase,
}

/// The state of one client's session.
pub struct Session {
    handle: String,
    room: String,
    discarding: bool,
    phase: Phase,
}

impl View for Session {
    type V = SessionView;

    closed spec fn view(&self) -> SessionView {
        SessionView {
            handle: self.handle@,
            room: self.room@,
            discarding: self.discarding,
            phase: self.phase,
        }
    }
}

/// What a step has seen of the channels, whose receivers come and go
/// outside the directory.
pub struct Observed {
    /// How many receivers the channel of the session's room has.
    pub receivers: usize,
    /// The rooms with the receivers of each, in listing order.
    pub listing: Vec<(String, usize)>,
}

/// What was seen, as numbers and text.
pub struct Seen {
    pub receivers: nat,
    pub listing: Seq<(Seq<char>, nat)>,
}

impl View for Observed {
    type V = Seen;

    open spec fn view(&self) -> Seen {
        Seen { receivers: self.receivers as nat, listing: entry_views(self.listing@) }
    }
}

/// A session together with what it shares with the others: the registry
/// of handles and the directory of rooms.
pub struct World {
    pub session: SessionView,
    pub names: Set<Seq<char>>,
    pub rooms: Directory,
}

/// How a step leaves the world, and the actions it asks for.
pub struct Outcome {
    pub world: World,
    pub actions: Seq<ActionText>,
}

/// Whether a failure of the framing is one to report: a failure of the
/// transport other than a broken pipe or a reset connection.
pub open spec fn is_unexpected(fault: CodecFault) -> bool {
    match fault {
        CodecFault::TooLong => false,
        CodecFault::Io(kind) => kind != Fault::BrokenPipe && kind != Fault::ConnectionReset,
    }
}

/// Nothing but the actions.
pub open spec fn stays(w: World, actions: Seq<ActionText>) -> Outcome {
    Outcome { world: w, actions }
}

/// The session ends: it tells its room that it has left, leaves the room
/// and frees its handle.
pub open spec fn ended(w: World, report: bool, seen: Seen) -> Outcome {
    Outcome {
        world: World {
            session: SessionView { phase: Phase::Done, ..w.session },
            names: w.names.remove(w.session.handle),
            rooms: left(w.rooms, w.session.room, w.session.handle, seen.receivers),
        },
        actions: seq![
            ActionText::Publish(RoomEventText::Left(w.session.handle)),
            ActionText::Close(report),
        ],
    }
}

/// The session goes over to the room `next`: it tells its room that it has
/// left, changes rooms, and tells the new room that it has come.
pub open spec fn moved(w: World, next: Seq<char>, seen: Seen) -> Outcome {
    Outcome {
        world: World {
            session: SessionView { room: next, ..w.session },
            names: w.names,
            rooms: joined(
                left(w.rooms, w.session.room, w.session.handle, seen.receivers),
                next,
                w.session.handle,
            ),
        },
        actions: seq![
            ActionText::Publish(RoomEventText::Left(w.session.handle)),
            ActionText::Enter(next),
            ActionText::Publish(RoomEventText::Joined(w.session.handle)),
        ],
    }
}

/// The session takes the handle `next`, which was free: the registry holds
/// it in place of the old one, the room lists it in place of the old one,
/// and the room is told.
pub open spec fn renamed_to(w: World, next: Seq<char>) -> Outcome {
    Outcome {
        world: World {
            session: SessionView { handle: next, ..w.session },
            names: w.names.insert(next).remove(w.session.handle),
            rooms: renamed(w.rooms, w.session.room, w.session.handle, next),
        },
        actions: seq![
            ActionText::Publish(RoomEventText::Msg(now_named(w.session.handle, next))),
        ],
    }
}

/// What an active session does with a line from its client.
pub open spec fn on_line(w: World, line: Seq<char>, seen: Seen) -> Outcome {
    match command_of(line) {
        CommandText::Help => stays(w, seq![ActionText::Write(HELP_MSG@)]),
        CommandText::Name(arg) => {
            if !(arg is Some && is_name(arg.unwrap())) {
                stays(w, seq![ActionText::Write(bad_name())])
            } else if w.names.contains(arg.unwrap()) {
                stays(w, seq![ActionText::Write(already_taken(arg.unwrap()))])
            } else {
                renamed_to(w, arg.unwrap())
            }
        },
        CommandText::Join(arg) => {
            if !(arg is Some && is_name(arg.unwrap())) {
                stays(w, seq![ActionText::Write(bad_room())])
            } else if arg.unwrap() == w.session.room {
                stays(w, seq![ActionText::Write(you_are_in(w.session.room))])
            } else {
                moved(w, arg.unwrap(), seen)
            }
        },
        CommandText::Rooms => stays(w, seq![ActionText::Write(rooms_line(seen.listing))]),
        CommandText::Users => stays(
            w,
            seq![ActionText::Write(users_line(in_order(users_of(w.rooms, w.session.room))))],
        ),
        CommandText::Quit => ended(w, false, seen),
        CommandText::Unknown(token) => stays(w, seq![ActionText::Write(unrecognized(token))]),
        CommandText::Say => stays(
            w,
            seq![ActionText::Publish(RoomEventText::Msg(said(w.session.handle, line)))],
        ),
    }
}

/// The line that shows a room event to the session.
pub open spec fn shown(session: SessionView, event: RoomEventText) -> Seq<char> {
    match event {
        RoomEventText::Joined(handle) => if handle == session.handle {
            you_joined(session.room)
        } else {
            peer_joined(handle)
        },
        RoomEventText::Left(handle) => if handle == session.handle {
            you_left(session.room)
        } else {
            peer_left(handle)
        },
        RoomEventText::Msg(line) => line,
    }
}

/// What a session does with an event, given what it sees of the channels.
pub open spec fn react(w: World, event: EventText, seen: Seen) -> Outcome {
    match w.session.phase {
        Phase::Greeting => match event {
            EventText::Greeted => Outcome {
                world: World {
                    session: SessionView { phase: Phase::Active, room: MAIN@, ..w.session },
                    names: w.names,
                    rooms: joined(w.rooms, MAIN@, w.session.handle),
                },
                actions: seq![
                    ActionText::Enter(MAIN@),
                    ActionText::Publish(RoomEventText::Joined(w.session.handle)),
                ],
            },
            EventText::WriteFailed(fault) => Outcome {
                world: World {
                    session: SessionView { phase: Phase::Done, ..w.session },
                    names: w.names.remove(w.session.handle),
                    rooms: w.rooms,
                },
                actions: seq![ActionText::Close(is_unexpected(fault))],
            },
            _ => stays(w, Seq::empty()),
        },
        Phase::Active => match event {
            EventText::Greeted => stays(w, Seq::empty()),
            EventText::Line(line) => on_line(w, line, seen),
            EventText::TooLong => Outcome {
                world: World { session: SessionView { discarding: true, ..w.session }, ..w },
                actions: seq![ActionText::Write(too_long())],
            },
            EventText::ReadFailed(fault) => ended(w, fault == Fault::Other, seen),
            EventText::EndOfStream => if w.session.discarding {
                Outcome {
                    world: World { session: SessionView { discarding: false, ..w.session }, ..w },
                    actions: Seq::empty(),
                }
            } else {
                ended(w, false, seen)
            },
            EventText::Delivered(event) => stays(
                w,
                seq![ActionText::Write(shown(w.session, event))],
            ),
            EventText::Lagged(missed) => stays(w, seq![ActionText::Write(dropped(missed))]),
            EventText::ChannelClosed => moved(w, MAIN@, seen),
            EventText::WriteFailed(fault) => ended(w, is_unexpected(fault), seen),
        },
        Phase::Done => stays(w, Seq::empty()),
    }
}

/// Whether the step for `event` lists the rooms.
pub open spec fn lists_rooms(session: SessionView, event: EventText) -> bool {
    &&& session.phase == Phase::Active
    &&& event matches EventText::Line(line)
    &&& command_of(line) == CommandText::Rooms
}

/// What a step that lists the rooms has seen is a listing of the rooms of
/// the directory, each with some count.
pub open spec fn seen_fits(seen: Seen, w: World, event: EventText) -> bool {
    lists_rooms(w.session, event) ==> listing_fits(seen.listing, w.rooms)
}

/// Whether the step for `event` leaves the room of the session: it ends
/// the session, takes it to another room, or answers a closed channel.
pub open spec fn leaves_room(w: World, event: EventText, seen: Seen) -> bool {
    let after = react(w, event, seen).world.session;
    &&& w.session.phase == Phase::Active
    &&& (after.phase == Phase::Done || after.room != w.session.room || event
        is ChannelClosed)
}

/// The rooms that the step for `event` does not remove. They keep their
/// channels.
pub open spec fn kept_rooms(w: World, event: EventText, seen: Seen) -> Directory {
    if leaves_room(w, event, seen) {
        left(w.rooms, w.session.room, w.session.handle, seen.receivers)
    } else {
        w.rooms
    }
}

/// An action that enters a room hands over a sending side of the channel
/// of that room, which was made for `ROOM_CHANNEL_CAPACITY` events.
pub open spec fn enters(action: Action, rooms: &Rooms) -> bool {
    match action {
        Action::Enter(room, tx) => channel_of(tx) == rooms.channel(room@) && capacity_of(tx)
            == ROOM_CHANNEL_CAPACITY,
        _ => true,
    }
}

/// Every action that enters a room hands over a sending side of the
/// channel of that room.
pub open spec fn all_enter(actions: Seq<Action>, rooms: &Rooms) -> bool {
    forall|k: int| 0 <= k < actions.len() ==> enters(#[trigger] actions[k], rooms)
}

/// Whether `parsed` is the command of the event, where the event is a
/// line.
pub open spec fn is_parsed(event: EventText, parsed: Option<Command>) -> bool {
    match event {
        EventText::Line(line) => parsed is Some && parsed.unwrap()@ == command_of(line),
        _ => true,
    }
}

/// The world of a session.
pub open spec fn world_of(session: &Session, names: &HandleRegistry, rooms: &Rooms) -> World {
    World { session: session@, names: names@, rooms: rooms@ }
}

/// The world as a step has left it, with the actions that the step has
/// answered with.
pub open spec fn outcome_of(
    session: &Session,
    names: &HandleRegistry,
    rooms: &Rooms,
    actions: Seq<Action>,
) -> Outcome {
    Outcome { world: world_of(session, names, rooms), actions: action_texts(actions) }
}

/// A rename is one step. Where the new handle is a name that the registry
/// does not hold, the step leaves the registry with the new handle, which
/// no other session can take any more, and without the old one, which is
/// free again; the session has the new handle, and the only action is the
/// notice to the room. Every other handle is in the registry as before.
pub proof fn lemma_rename_hands_over(w: World, line: Seq<char>, next: Seq<char>, seen: Seen)
    requires
        w.session.phase == Phase::Active,
        command_of(line) == CommandText::Name(Some(next)),
        is_name(next),
        !w.names.contains(next),
        w.names.contains(w.session.handle),
    ensures
        ({
            let out = react(w, EventText::Line(line), seen);
            &&& out.world.names.contains(next)
            &&& !out.world.names.contains(w.session.handle)
            &&& forall|h: Seq<char>|
                h != next && h != w.session.handle ==> (out.world.names.contains(h)
                    <==> w.names.contains(h))
            &&& out.world.session.handle == next
            &&& out.actions == seq![
                ActionText::Publish(RoomEventText::Msg(now_named(w.session.handle, next))),
            ]
        }),
{
}

/// A rename to a handle that the registry holds changes nothing: the
/// client is told that the handle is taken.
pub proof fn lemma_rename_refused(w: World, line: Seq<char>, next: Seq<char>, seen: Seen)
    requires
        w.session.phase == Phase::Active,
        command_of(line) == CommandText::Name(Some(next)),
        is_name(next),
        w.names.contains(next),
    ensures
        react(w, EventText::Line(line), seen) == stays(
            w,
            seq![ActionText::Write(already_taken(next))],
        ),
{
}

/// The text of a room event has no line feed.
pub open spec fn plain_event(event: RoomEventText) -> bool {
    match event {
        RoomEventText::Joined(handle) => newline_free(handle),
        RoomEventText::Left(handle) => newline_free(handle),
        RoomEventText::Msg(line) => newline_free(line),
    }
}

/// The text that an event carries has no line feed: the framing of the
/// transport sees to that for the lines of a client, and the sessions for
/// the events of a room.
pub open spec fn plain(event: EventText) -> bool {
    match event {
        EventText::Line(line) => newline_free(line),
        EventText::Delivered(event) => plain_event(event),
        _ => true,
    }
}

/// The text that an action carries has no line feed.
pub open spec fn single(action: ActionText) -> bool {
    match action {
        ActionText::Write(line) => newline_free(line),
        ActionText::Publish(event) => plain_event(event),
        ActionText::Enter(room) => newline_free(room),
        ActionText::Close(_) => true,
    }
}

/// The handle and the room of the session are names, and the directory
/// holds finitely many users in each room, under names and handles without
/// a line feed.
pub open spec fn tidy(w: World) -> bool {
    &&& is_name(w.session.handle)
    &&& is_name(w.session.room)
    &&& forall|r: Seq<char>| #[trigger]
        w.rooms.contains_key(r) ==> newline_free(r) && w.rooms[r].finite()
    &&& forall|r: Seq<char>, h: Seq<char>|
        w.rooms.contains_key(r) && #[trigger] w.rooms[r].contains(h) ==> newline_free(h)
}

/// Every line that a step writes, and every event that it publishes, is
/// free of line feeds, and the world stays tidy, provided that the world
/// was tidy and that the event carries no line feed.
pub proof fn lemma_step_keeps_lines_single(w: World, event: EventText, seen: Seen)
    requires
        tidy(w),
        plain(event),
        seen_fits(seen, w, event),
    ensures
        tidy(react(w, event, seen).world),
        forall|k: int|
            0 <= k < react(w, event, seen).actions.len() ==> single(
                #[trigger] react(w, event, seen).actions[k],
            ),
{
    let out = react(w, event, seen);
    let handle = w.session.handle;
    let room = w.session.room;
    crate::protocol::lemma_main_is_name();
    crate::protocol::lemma_name_newline_free(handle);
    crate::protocol::lemma_name_newline_free(room);
    crate::protocol::lemma_fixed_lines_single();
    crate::protocol::lemma_lines_of_one_single(handle);
    crate::protocol::lemma_lines_of_one_single(room);
    match event {
        EventText::Line(line) => {
            crate::protocol::lemma_lines_of_two_single(handle, line, 0);
            crate::text::lemma_word_newline_free(line, 0, 0);
            crate::text::lemma_word_newline_free(line, 0, 1);
            match command_of(line) {
                CommandText::Name(arg) => {
                    if arg is Some {
                        crate::protocol::lemma_lines_of_one_single(arg.unwrap());
                        crate::protocol::lemma_lines_of_two_single(handle, arg.unwrap(), 0);
                    }
                },
                CommandText::Unknown(token) => {
                    crate::protocol::lemma_lines_of_one_single(token);
                },
                CommandText::Rooms => {
                    if w.session.phase == Phase::Active {
                        let census = choose|census: Map<Seq<char>, nat>|
                            census.dom() == w.rooms.dom() && #[trigger] is_listing_of(
                                seen.listing,
                                census,
                            );
                        assert forall|i: int| 0 <= i < seen.listing.len() implies newline_free(
                            (#[trigger] seen.listing[i]).0,
                        ) by {
                            assert(census.contains_key(seen.listing[i].0));
                            assert(w.rooms.dom().contains(seen.listing[i].0));
                            assert(w.rooms.contains_key(seen.listing[i].0));
                        }
                        crate::protocol::lemma_lists_single(seen.listing, Seq::empty());
                    }
                },
                CommandText::Users => {
                    let users = users_of(w.rooms, room);
                    if w.rooms.contains_key(room) {
                        assert(users.finite());
                    }
                    crate::listing::lemma_order_exists(users);
                    let listed = in_order(users);
                    assert forall|i: int| 0 <= i < listed.len() implies newline_free(
                        #[trigger] listed[i],
                    ) by {
                        assert(listed.contains(listed[i]));
                        assert(listed.to_set().contains(listed[i]));
                        assert(w.rooms[room].contains(listed[i]));
                    }
                    crate::protocol::lemma_lists_single(Seq::empty(), listed);
                },
                _ => {},
            }
        },
        EventText::Delivered(delivered) => {
            match delivered {
                RoomEventText::Joined(peer) => {
                    crate::protocol::lemma_lines_of_one_single(peer);
                },
                RoomEventText::Left(peer) => {
                    crate::protocol::lemma_lines_of_one_single(peer);
                },
                RoomEventText::Msg(_) => {},
            }
        },
        EventText::Lagged(missed) => {
            crate::protocol::lemma_lines_of_two_single(handle, handle, missed);
        },
        _ => {},
    }
    assert(is_name(out.world.session.handle));
    assert(is_name(out.world.session.room));
    crate::protocol::lemma_name_newline_free(out.world.session.handle);
    crate::protocol::lemma_name_newline_free(out.world.session.room);
    assert forall|r: Seq<char>| #[trigger] out.world.rooms.contains_key(r) implies newline_free(r)
        && out.world.rooms[r].finite() by {
        if w.rooms.contains_key(r) {
            assert(w.rooms[r].finite());
        }
    }
    assert forall|r: Seq<char>, h: Seq<char>|
        out.world.rooms.contains_key(r) && #[trigger] out.world.rooms[r].contains(
            h,
        ) implies newline_free(h) by {
        if w.rooms.contains_key(r) && w.rooms[r].contains(h) {
            assert(newline_free(h));
        }
    }
}

/// Whether a failure of the framing is one to report.
pub fn unexpected(fault: CodecFault) -> (report: bool)
    ensures
        report == is_unexpected(fault),
{
    match fault {
        CodecFault::TooLong => false,
        CodecFault::Io(kind) => match kind {
            Fault::BrokenPipe => false,
            Fault::ConnectionReset => false,
            _ => true,
        },
    }
}

/// Whether the outcome of a write ends the session: every failure does.
pub fn should_exit(result: Result<(), CodecFault>) -> (exit: bool)
    ensures
        exit == (result is Err),
{
    match result {
        Ok(_) => false,
        Err(_) => true,
    }
}

fn optional_str(arg: &Option<String>) -> (text: Option<&str>)
    ensures
        text is Some == arg is Some,
        text is Some ==> text.unwrap()@ == arg.unwrap()@,
{
    match arg {
        Some(s) => Some(s.as_str()),
        None => None,
    }
}

impl Session {
    /// The handle and the room of a session are names.
    pub closed spec fn wf(&self) -> bool {
        is_name(self.handle@) && is_name(self.room@)
    }

    /// A session for the client that was given `handle`, and the action
    /// that greets the client. The session waits for the greeting to be
    /// written.
    pub fn open(handle: String) -> (opened: (Session, Vec<Action>))
        requires
            is_name(handle@),
        ensures
            opened.0.wf(),
            opened.0@ == (SessionView {
                handle: handle@,
                room: MAIN@,
                discarding: false,
                phase: Phase::Greeting,
            }),
            action_texts(opened.1@) == seq![ActionText::Write(greeting(handle@))],
    {
        proof {
            crate::protocol::lemma_main_is_name();
        }
        let mut actions: Vec<Action> = Vec::new();
        actions.push(Action::Write(greeting_line(handle.as_str())));
        assert(action_texts(actions@) =~= seq![ActionText::Write(greeting(handle@))]);
        let session = Session {
            handle,
            room: String::from_str(MAIN),
            discarding: false,
            phase: Phase::Greeting,
        };
        (session, actions)
    }

    /// Accepts a client: reserves a handle that is free, and opens a
    /// session under it. Nothing where the generator has no free handle.
    pub fn accept(names: &mut HandleRegistry, generator: &mut NameGenerator) -> (opened: Option<
        (Session, Vec<Action>),
    >)
        requires
            old(names).wf(),
            old(generator).wf(),
        ensures
            final(names).wf(),
            final(generator).wf(),
            match opened {
                Some((session, actions)) => exists|n: nat|
                    {
                        &&& n < TRIES
                        &&& #[trigger] first_free(old(names)@, *old(generator), n)
                        &&& *final(generator) == old(generator).ahead(n + 1)
                        &&& session.wf()
                        &&& session@ == (SessionView {
                            handle: old(generator).name_ahead(n),
                            room: MAIN@,
                            discarding: false,
                            phase: Phase::Greeting,
                        })
                        &&& final(names)@ == old(names)@.insert(session@.handle)
                        &&& action_texts(actions@) == seq![
                            ActionText::Write(greeting(session@.handle)),
                        ]
                    },
                None => {
                    &&& forall|n: nat|
                        n < TRIES ==> old(names)@.contains(
                            #[trigger] old(generator).name_ahead(n),
                        )
                    &&& final(names)@ == old(names)@
                    &&& *final(generator) == old(generator).ahead(TRIES as nat)
                },
            },
    {
        match names.reserve_unique(generator) {
            Some(handle) => Some(Session::open(handle)),
            None => None,
        }
    }

    /// The handle of the session.
    pub fn handle(&self) -> (handle: &String)
        ensures
            handle@ == self@.handle,
    {
        &self.handle
    }

    /// The room of the session. Before the session is active, it is the
    /// room that it will start in.
    pub fn room(&self) -> (room: &String)
        ensures
            room@ == self@.room,
    {
        &self.room
    }

    /// Where the session stands.
    pub fn phase(&self) -> (phase: Phase)
        ensures
            phase == self@.phase,
    {
        self.phase
    }

    /// Whether the session has told the client of a line that was too
    /// long, and the end of stream that follows such a line is still to
    /// come.
    pub fn is_discarding(&self) -> (discarding: bool)
        ensures
            discarding == self@.discarding,
    {
        self.discarding
    }

    fn end(
        &mut self,
        names: &mut HandleRegistry,
        rooms: &mut Rooms,
        report: bool,
        seen: &Observed,
    ) -> (actions: Vec<Action>)
        requires
            old(self).wf(),
            old(names).wf(),
            old(rooms).wf(),
        ensures
            final(self).wf(),
            final(names).wf(),
            final(rooms).wf(),
            outcome_of(final(self), final(names), final(rooms), actions@) == ended(
                world_of(old(self), old(names), old(rooms)),
                report,
                seen@,
            ),
            all_enter(actions@, final(rooms)),
            same_channels(old(rooms), final(rooms), final(rooms)@),
    {
        let mut actions: Vec<Action> = Vec::new();
        actions.push(Action::Publish(RoomEvent::Left(self.handle.clone())));
        actions.push(Action::Close(report));
        rooms.leave_counted(self.room.as_str(), self.handle.as_str(), seen.receivers);
        names.release(self.handle.as_str());
        self.phase = Phase::Done;
        assert(action_texts(actions@) =~= seq![
            ActionText::Publish(RoomEventText::Left(old(self)@.handle)),
            ActionText::Close(report),
        ]);
        actions
    }

    fn go_to(&mut self, rooms: &mut Rooms, next: String, seen: &Observed) -> (actions: Vec<Action>)
        requires
            old(self).wf(),
            old(rooms).wf(),
            is_name(next@),
        ensures
            final(self).wf(),
            final(rooms).wf(),
            forall|names: &HandleRegistry| #[trigger]
                outcome_of(final(self), names, final(rooms), actions@) == moved(
                    world_of(old(self), names, old(rooms)),
                    next@,
                    seen@,
                ),
            all_enter(actions@, final(rooms)),
            same_channels(
                old(rooms),
                final(rooms),
                left(old(rooms)@, old(self)@.room, old(self)@.handle, seen@.receivers),
            ),
    {
        let mut actions: Vec<Action> = Vec::new();
        actions.push(Action::Publish(RoomEvent::Left(self.handle.clone())));
        let tx = rooms.change_counted(
            self.room.as_str(),
            next.as_str(),
            self.handle.as_str(),
            seen.receivers,
        );
        actions.push(Action::Enter(next.clone(), tx));
        actions.push(Action::Publish(RoomEvent::Joined(self.handle.clone())));
        self.room = next;
        assert(action_texts(actions@) =~= seq![
            ActionText::Publish(RoomEventText::Left(old(self)@.handle)),
            ActionText::Enter(next@),
            ActionText::Publish(RoomEventText::Joined(old(self)@.handle)),
        ]);
        actions
    }

    fn write(line: String) -> (actions: Vec<Action>)
        ensures
            action_texts(actions@) == seq![ActionText::Write(line@)],
            forall|rooms: &Rooms| #[trigger] all_enter(actions@, rooms),
    {
        let mut actions: Vec<Action> = Vec::new();
        actions.push(Action::Write(line));
        assert(action_texts(actions@) =~= seq![ActionText::Write(line@)]);
        actions
    }

    fn publish(event: RoomEvent) -> (actions: Vec<Action>)
        ensures
            action_texts(actions@) == seq![ActionText::Publish(event@)],
            forall|rooms: &Rooms| #[trigger] all_enter(actions@, rooms),
    {
        let mut actions: Vec<Action> = Vec::new();
        actions.push(Action::Publish(event));
        assert(action_texts(actions@) =~= seq![ActionText::Publish(event@)]);
        actions
    }

    fn nothing() -> (actions: Vec<Action>)
        ensures
            action_texts(actions@) == Seq::<ActionText>::empty(),
            forall|rooms: &Rooms| #[trigger] all_enter(actions@, rooms),
    {
        let actions: Vec<Action> = Vec::new();
        assert(action_texts(actions@) =~= Seq::<ActionText>::empty());
        actions
    }

    fn on_command(
        &mut self,
        names: &mut HandleRegistry,
        rooms: &mut Rooms,
        command: Command,
        line: String,
        seen: &Observed,
    ) -> (actions: Vec<Action>)
        requires
            old(self).wf(),
            old(names).wf(),
            old(rooms).wf(),
            command@ == command_of(line@),
        ensures
            final(self).wf(),
            final(names).wf(),
            final(rooms).wf(),
            outcome_of(final(self), final(names), final(rooms), actions@) == on_line(
                world_of(old(self), old(names), old(rooms)),
                line@,
                seen@,
            ),
            all_enter(actions@, final(rooms)),
            old(self)@.phase == Phase::Active ==> same_channels(
                old(rooms),
                final(rooms),
                kept_rooms(world_of(old(self), old(names), old(rooms)), EventText::Line(line@), seen@),
            ),
    {
        match command {
            Command::Help => Self::write(String::from_str(HELP_MSG)),
            Command::Name(arg) => {
                if !valid_name(optional_str(&arg)) {
                    return Self::write(bad_name_line());
                }
                let next = arg.unwrap();
                if names.try_insert(next.clone()) {
                    rooms.change_name(self.room.as_str(), self.handle.as_str(), next.as_str());
                    let line = now_named_line(self.handle.as_str(), next.as_str());
                    names.release(self.handle.as_str());
                    self.handle = next;
                    Self::publish(RoomEvent::Msg(line))
                } else {
                    assert(names@ =~= old(names)@);
                    Self::write(already_taken_line(next.as_str()))
                }
            },
            Command::Join(arg) => {
                if !valid_name(optional_str(&arg)) {
                    return Self::write(bad_room_line());
                }
                let next = arg.unwrap();
                if same_text(next.as_str(), self.room.as_str()) {
                    return Self::write(you_are_in_line(self.room.as_str()));
                }
                self.go_to(rooms, next, seen)
            },
            Command::Rooms => Self::write(rooms_line_of(&seen.listing)),
            Command::Users => {
                let handles: Vec<String> = match rooms.list_users(self.room.as_str()) {
                    Some(handles) => handles,
                    None => Vec::new(),
                };
                proof {
                    lemma_in_order(texts(handles@));
                    if !rooms@.contains_key(self.room@) {
                        assert(texts(handles@).to_set() =~= Set::<Seq<char>>::empty());
                    }
                }
                Self::write(users_line_of(&handles))
            },
            Command::Quit => self.end(names, rooms, false, seen),
            Command::Unknown(token) => Self::write(unrecognized_line(token.as_str())),
            Command::Say => Self::publish(
                RoomEvent::Msg(said_line(self.handle.as_str(), line.as_str())),
            ),
        }
    }

    fn shown_line(&self, event: &RoomEvent) -> (line: String)
        ensures
            line@ == shown(self@, event@),
    {
        match event {
            RoomEvent::Joined(handle) => {
                if same_text(handle.as_str(), self.handle.as_str()) {
                    you_joined_line(self.room.as_str())
                } else {
                    peer_joined_line(handle.as_str())
                }
            },
            RoomEvent::Left(handle) => {
                if same_text(handle.as_str(), self.handle.as_str()) {
                    you_left_line(self.room.as_str())
                } else {
                    peer_left_line(handle.as_str())
                }
            },
            RoomEvent::Msg(line) => line.clone(),
        }
    }

    fn on_event(
        &mut self,
        names: &mut HandleRegistry,
        rooms: &mut Rooms,
        event: Event,
        parsed: Option<Command>,
        seen: &Observed,
    ) -> (actions: Vec<Action>)
        requires
            old(self).wf(),
            old(names).wf(),
            old(rooms).wf(),
            is_parsed(event@, parsed),
        ensures
            final(self).wf(),
            final(names).wf(),
            final(rooms).wf(),
            outcome_of(final(self), final(names), final(rooms), actions@) == react(
                world_of(old(self), old(names), old(rooms)),
                event@,
                seen@,
            ),
            all_enter(actions@, final(rooms)),
            same_channels(
                old(rooms),
                final(rooms),
                kept_rooms(world_of(old(self), old(names), old(rooms)), event@, seen@),
            ),
    {
        match self.phase {
            Phase::Greeting => match event {
                Event::Greeted => {
                    proof {
                        crate::protocol::lemma_main_is_name();
                    }
                    let tx = rooms.join(MAIN, self.handle.as_str());
                    let mut actions: Vec<Action> = Vec::new();
                    actions.push(Action::Enter(String::from_str(MAIN), tx));
                    actions.push(Action::Publish(RoomEvent::Joined(self.handle.clone())));
                    self.room = String::from_str(MAIN);
                    self.phase = Phase::Active;
                    assert(action_texts(actions@) =~= seq![
                        ActionText::Enter(MAIN@),
                        ActionText::Publish(RoomEventText::Joined(old(self)@.handle)),
                    ]);
                    actions
                },
                Event::WriteFailed(fault) => {
                    names.release(self.handle.as_str());
                    self.phase = Phase::Done;
                    let mut actions: Vec<Action> = Vec::new();
                    actions.push(Action::Close(unexpected(fault)));
                    assert(action_texts(actions@) =~= seq![
                        ActionText::Close(is_unexpected(fault)),
                    ]);
                    actions
                },
                _ => Self::nothing(),
            },
            Phase::Active => match event {
                Event::Greeted => Self::nothing(),
                Event::Line(line) => {
                    self.on_command(names, rooms, parsed.unwrap(), line, seen)
                },
                Event::TooLong => {
                    self.discarding = true;
                    Self::write(too_long_line())
                },
                Event::ReadFailed(fault) => {
                    let report = match fault {
                        Fault::Other => true,
                        _ => false,
                    };
                    self.end(names, rooms, report, seen)
                },
                Event::EndOfStream => {
                    if self.discarding {
                        self.discarding = false;
                        Self::nothing()
                    } else {
                        self.end(names, rooms, false, seen)
                    }
                },
                Event::Delivered(event) => Self::write(self.shown_line(&event)),
                Event::Lagged(missed) => Self::write(dropped_line(missed)),
                Event::ChannelClosed => {
                    proof {
                        crate::protocol::lemma_main_is_name();
                    }
                    self.go_to(rooms, String::from_str(MAIN), seen)
                },
                Event::WriteFailed(fault) => self.end(names, rooms, unexpected(fault), seen),
            },
            Phase::Done => Self::nothing(),
        }
    }

    /// What the session does with `event`, where `seen` is what the
    /// channels show: the world changes and the actions are as `react`
    /// says, for every event and everything seen.
    pub fn step_seen(
        &mut self,
        names: &mut HandleRegistry,
        rooms: &mut Rooms,
        event: Event,
        seen: &Observed,
    ) -> (actions: Vec<Action>)
        requires
            old(self).wf(),
            old(names).wf(),
            old(rooms).wf(),
        ensures
            final(self).wf(),
            final(names).wf(),
            final(rooms).wf(),
            outcome_of(final(self), final(names), final(rooms), actions@) == react(
                world_of(old(self), old(names), old(rooms)),
                event@,
                seen@,
            ),
            all_enter(actions@, final(rooms)),
            same_channels(
                old(rooms),
                final(rooms),
                kept_rooms(world_of(old(self), old(names), old(rooms)), event@, seen@),
            ),
    {
        let parsed = Self::parsed(&event);
        self.on_event(names, rooms, event, parsed, seen)
    }

    /// Looks at the channels as far as the step for `event` needs it: the
    /// listing of the rooms for the command that lists them, and the
    /// receivers of the session's room for a step that may leave it.
    /// The command of the event, where the event is a line.
    fn parsed(event: &Event) -> (parsed: Option<Command>)
        ensures
            is_parsed(event@, parsed),
            !(event is Line) ==> parsed is None,
    {
        match event {
            Event::Line(line) => Some(parse_command(line.as_str())),
            _ => None,
        }
    }

    fn observe(&self, rooms: &Rooms, event: &Event, parsed: &Option<Command>) -> (seen: Observed)
        requires
            rooms.wf(),
            is_parsed(event@, *parsed),
        ensures
            lists_rooms(self@, event@) ==> listing_fits(seen@.listing, rooms@),
    {
        let mut seen = Observed { receivers: 0, listing: Vec::new() };
        match self.phase {
            Phase::Active => match event {
                Event::Line(_) => match parsed {
                    Some(Command::Rooms) => {
                        seen.listing = rooms.list();
                        assert(listing_fits(seen@.listing, rooms@));
                    },
                    Some(Command::Join(_)) => {
                        seen.receivers = rooms.subscribers(self.room.as_str());
                    },
                    Some(Command::Quit) => {
                        seen.receivers = rooms.subscribers(self.room.as_str());
                    },
                    _ => {},
                },
                Event::Greeted => {},
                Event::TooLong => {},
                Event::Delivered(_) => {},
                Event::Lagged(_) => {},
                _ => {
                    seen.receivers = rooms.subscribers(self.room.as_str());
                },
            },
            _ => {},
        }
        seen
    }

    /// What the session does with `event`: it looks at the channels, which
    /// may show any number of receivers, and then does what `react` says
    /// for what it has seen.
    pub fn step(&mut self, names: &mut HandleRegistry, rooms: &mut Rooms, event: Event) -> (actions:
        Vec<Action>)
        requires
            old(self).wf(),
            old(names).wf(),
            old(rooms).wf(),
        ensures
            final(self).wf(),
            final(names).wf(),
            final(rooms).wf(),
            exists|seen: Seen|
                {
                    &&& seen_fits(seen, world_of(old(self), old(names), old(rooms)), event@)
                    &&& outcome_of(final(self), final(names), final(rooms), actions@)
                        == #[trigger] react(
                        world_of(old(self), old(names), old(rooms)),
                        event@,
                        seen,
                    )
                    &&& same_channels(
                        old(rooms),
                        final(rooms),
                        kept_rooms(world_of(old(self), old(names), old(rooms)), event@, seen),
                    )
                },
            all_enter(actions@, final(rooms)),
    {
        let parsed = Self::parsed(&event);
        let seen = self.observe(rooms, &event, &parsed);
        assert(seen_fits(seen@, world_of(self, names, rooms), event@));
        self.on_event(names, rooms, event, parsed, &seen)
    }
}

} // verus!
