//! Rooms and the directory of rooms.
use vstd::prelude::*;
use tokio::sync::broadcast::Sender;
use crate::listing::{
    ascending, entry_names, entry_views, is_listing_of, lemma_sorted_is_listing, place_of,
    sort_listing, sort_names,
};
use crate::names::{texts, NameSet};

verus! {

/// The sending side of a broadcast channel of tokio. Nothing of what is
/// inside it is known here.
#[verifier::external_type_specification]
#[verifier::external_body]
#[verifier::reject_recursive_types(T)]
pub struct ExSender<T>(tokio::sync::broadcast::Sender<T>);

/// How many events a room's channel keeps for a receiver that has fallen
/// behind.
pub const ROOM_CHANNEL_CAPACITY: usize = 1024;

/// What happens in a room.
#[derive(Debug)]
pub enum RoomEvent {
    /// The user of this handle has come in.
    Joined(String),
    /// The user of this handle has gone.
    Left(String),
    /// A line for everybody in the room, ready to be shown.
    Msg(String),
}

/// What a room event says, as text.
pub enum RoomEventText {
    Joined(Seq<char>),
    Left(Seq<char>),
    Msg(Seq<char>),
}

impl View for RoomEvent {
    type V = RoomEventText;

    open spec fn view(&self) -> RoomEventText {
        match self {
            RoomEvent::Joined(handle) => RoomEventText::Joined(handle@),
            RoomEvent::Left(handle) => RoomEventText::Left(handle@),
            RoomEvent::Msg(line) => RoomEventText::Msg(line@),
        }
    }
}

impl Clone for RoomEvent {
    fn clone(&self) -> (copy: Self)
        ensures
            copy@ == self@,
    {
        match self {
            RoomEvent::Joined(handle) => RoomEvent::Joined(handle.clone()),
            RoomEvent::Left(handle) => RoomEvent::Left(handle.clone()),
            RoomEvent::Msg(line) => RoomEvent::Msg(line.clone()),
        }
    }
}

/// The channel that a sending side belongs to. Two sending sides belong to
/// the same channel when `Sender::same_channel` says so.
pub uninterp spec fn channel_of(tx: Sender<RoomEvent>) -> int;

/// The capacity for which the channel of a sending side was made.
pub uninterp spec fn capacity_of(tx: Sender<RoomEvent>) -> nat;

/// `tokio::sync::broadcast::channel`: a new channel made for `capacity`
/// events, of which the sending side is returned and the first receiver is
/// dropped. The capacity must be above 0 and at most half of `usize::MAX`.
#[verifier::external_body]
fn open_channel(capacity: usize) -> (tx: Sender<RoomEvent>)
    requires
        0 < capacity <= usize::MAX / 2,
    ensures
        capacity_of(tx) == capacity,
{
    tokio::sync::broadcast::channel(capacity).0
}

/// `Sender::clone`: one more sending side of the same channel.
#[verifier::external_body]
fn share(tx: &Sender<RoomEvent>) -> (shared: Sender<RoomEvent>)
    ensures
        channel_of(shared) == channel_of(*tx),
        capacity_of(shared) == capacity_of(*tx),
{
    tx.clone()
}

/// `Sender::receiver_count`: how many receivers the channel has at the
/// moment of the call. They come and go outside the directory, so nothing
/// is known of the number.
#[verifier::external_body]
fn receiver_count(tx: &Sender<RoomEvent>) -> (receivers: usize) {
    tx.receiver_count()
}

/// The directory as a mapping from each room's name to the handles of the
/// users in it.
pub type Directory = Map<Seq<char>, Set<Seq<char>>>;

/// The users of `room`, none where there is no such room.
pub open spec fn users_of(dir: Directory, room: Seq<char>) -> Set<Seq<char>> {
    if dir.contains_key(room) {
        dir[room]
    } else {
        Set::empty()
    }
}

/// The directory after `user` has joined `room`: the room is there, and the
/// user is in it.
pub open spec fn joined(dir: Directory, room: Seq<char>, user: Seq<char>) -> Directory {
    dir.insert(room, users_of(dir, room).insert(user))
}

/// The directory after `user` has left `room`, whose channel had
/// `receivers` receivers at that moment, the one of the leaving user
/// included: with at most one receiver the room goes, else it stays without
/// the user.
pub open spec fn left(dir: Directory, room: Seq<char>, user: Seq<char>, receivers: nat) -> Directory {
    if !dir.contains_key(room) {
        dir
    } else if receivers <= 1 {
        dir.remove(room)
    } else {
        dir.insert(room, dir[room].remove(user))
    }
}

/// The directory after the user `prev` of `room` has taken the handle
/// `next`.
pub open spec fn renamed(dir: Directory, room: Seq<char>, prev: Seq<char>, next: Seq<char>) -> Directory {
    if dir.contains_key(room) {
        dir.insert(room, dir[room].remove(prev).insert(next))
    } else {
        dir
    }
}

/// Whether `listing` lists the rooms of the directory, each once with some
/// count, in listing order.
pub open spec fn listing_fits(listing: Seq<(Seq<char>, nat)>, rooms: Directory) -> bool {
    exists|census: Map<Seq<char>, nat>|
        census.dom() == rooms.dom() && #[trigger] is_listing_of(listing, census)
}

/// Every room of `kept` has in `after` the channel that it has in `before`.
pub open spec fn same_channels(before: &Rooms, after: &Rooms, kept: Directory) -> bool {
    forall|r: Seq<char>| #[trigger] kept.contains_key(r) ==> after.channel(r) == before.channel(r)
}

/// A named room: the sending side of its channel and the handles of the
/// users in it.
pub struct Room {
    name: String,
    tx: Sender<RoomEvent>,
    users: NameSet,
}

/// The rooms that have users, by name.
pub struct Rooms {
    rooms: Vec<Room>,
}

impl View for Rooms {
    type V = Directory;

    closed spec fn view(&self) -> Directory {
        Map::new(
            |name: Seq<char>| self.names().contains(name),
            |name: Seq<char>| self.rooms@[place_of(self.names(), name)].users@,
        )
    }
}

impl Rooms {
    /// The names of the rooms, in the order in which they are kept.
    pub closed spec fn names(&self) -> Seq<Seq<char>> {
        self.rooms@.map_values(|r: Room| r.name@)
    }

    /// No two rooms have the same name, every room's set of users is well
    /// formed, and every room's channel was made for
    /// `ROOM_CHANNEL_CAPACITY` events.
    pub closed spec fn wf(&self) -> bool {
        &&& self.names().no_duplicates()
        &&& forall|i: int|
            0 <= i < self.rooms@.len() ==> (#[trigger] self.rooms@[i]).users.wf() && capacity_of(
                self.rooms@[i].tx,
            ) == ROOM_CHANNEL_CAPACITY
    }

    /// The channel of the room `room`.
    pub closed spec fn channel(&self, room: Seq<char>) -> int {
        channel_of(self.rooms@[place_of(self.names(), room)].tx)
    }

    /// The directory has finitely many rooms.
    pub proof fn lemma_finite(&self)
        requires
            self.wf(),
        ensures
            self@.dom().finite(),
    {
        vstd::seq_lib::seq_to_set_is_finite(self.names());
        assert(self@.dom() =~= self.names().to_set());
    }

    /// A directory without rooms.
    pub fn new() -> (rooms: Self)
        ensures
            rooms.wf(),
            rooms@ == Map::<Seq<char>, Set<Seq<char>>>::empty(),
    {
        let rooms = Rooms { rooms: Vec::new() };
        assert(rooms@ =~= Map::<Seq<char>, Set<Seq<char>>>::empty());
        rooms
    }

    fn position(&self, room_name: &str) -> (at: Option<usize>)
        requires
            self.wf(),
        ensures
            at is Some == self@.contains_key(room_name@),
            at is Some ==> at.unwrap() < self.rooms.len() && self.names()[at.unwrap() as int]
                == room_name@ && self@[room_name@] == self.rooms@[at.unwrap() as int].users@,
    {
        let wanted = String::from_str(room_name);
        let mut i: usize = 0;
        while i < self.rooms.len()
            invariant
                i <= self.rooms.len(),
                self.wf(),
                wanted@ == room_name@,
                forall|k: int| 0 <= k < i ==> self.names()[k] != room_name@,
            decreases self.rooms.len() - i,
        {
            if self.rooms[i].name == wanted {
                assert(self.names()[i as int] == room_name@);
                assert(place_of(self.names(), room_name@) == i);
                return Some(i);
            }
            i += 1;
        }
        None
    }

    /// How many rooms there are.
    pub fn len(&self) -> (n: usize)
        requires
            self.wf(),
        ensures
            n == self@.dom().len(),
    {
        proof {
            self.names().unique_seq_to_set();
            assert(self@.dom() =~= self.names().to_set());
        }
        self.rooms.len()
    }

    /// Whether there is a room of this name.
    pub fn contains(&self, room_name: &str) -> (found: bool)
        requires
            self.wf(),
        ensures
            found == self@.contains_key(room_name@),
    {
        self.position(room_name).is_some()
    }

    /// How many receivers the channel of `room_name` has at this moment; 0
    /// where there is no such room.
    pub fn subscribers(&self, room_name: &str) -> (receivers: usize)
        requires
            self.wf(),
        ensures
            !self@.contains_key(room_name@) ==> receivers == 0,
    {
        match self.position(room_name) {
            Some(at) => receiver_count(&self.rooms[at].tx),
            None => 0,
        }
    }

    /// Replacing the room at `at` by one of the same name changes the entry
    /// of that name and no other.
    proof fn lemma_replaced(&self, after: &Rooms, at: int, room: Room)
        requires
            self.wf(),
            0 <= at < self.rooms@.len(),
            room.name@ == self.rooms@[at].name@,
            room.tx == self.rooms@[at].tx,
            room.users.wf(),
            after.rooms@ == self.rooms@.update(at, room),
        ensures
            after.wf(),
            after@ == self@.insert(room.name@, room.users@),
            same_channels(self, after, self@),
    {
        assert(after.names() =~= self.names());
        assert forall|r: Seq<char>| #[trigger] self@.contains_key(r) implies after.channel(r)
            == self.channel(r) by {
            let k = place_of(self.names(), r);
            assert(self.names()[k] == r);
            if k != at {
                assert(after.rooms@[k] == self.rooms@[k]);
            } else {
                assert(after.rooms@[k] == room);
            }
        }
        assert(self.names()[at] == room.name@);
        assert(self.names().contains(room.name@));
        assert forall|name: Seq<char>| #[trigger]
            after@.contains_key(name) implies after@[name] == self@.insert(
            room.name@,
            room.users@,
        )[name] by {
            let k = place_of(self.names(), name);
            assert(self.names()[k] == name);
            if k != at {
                assert(self.names()[k] != self.names()[at]);
                assert(after.rooms@[k] == self.rooms@[k]);
            } else {
                assert(after.rooms@[k] == room);
            }
        }
        assert(after@.dom() =~= self@.insert(room.name@, room.users@).dom());
        assert(after@ =~= self@.insert(room.name@, room.users@));
    }

    /// A room of a new name is one more entry.
    proof fn lemma_pushed(&self, after: &Rooms, room: Room)
        requires
            self.wf(),
            !self@.contains_key(room.name@),
            room.users.wf(),
            capacity_of(room.tx) == ROOM_CHANNEL_CAPACITY,
            after.rooms@ == self.rooms@.push(room),
        ensures
            after.wf(),
            after@ == self@.insert(room.name@, room.users@),
            same_channels(self, after, self@),
            after.channel(room.name@) == channel_of(room.tx),
    {
        assert(after.names() =~= self.names().push(room.name@));
        assert forall|r: Seq<char>| #[trigger] self@.contains_key(r) implies after.channel(r)
            == self.channel(r) by {
            let k = place_of(self.names(), r);
            assert(self.names()[k] == r);
            assert(after.names()[k] == r);
            assert(place_of(after.names(), r) == k);
            assert(after.rooms@[k] == self.rooms@[k]);
        }
        assert(after.channel(room.name@) == channel_of(room.tx)) by {
            let n = self.names().len() as int;
            assert(after.names()[n] == room.name@);
            let k = place_of(after.names(), room.name@);
            if k < n {
                assert(self.names()[k] == room.name@);
                assert(self.names().contains(room.name@));
            }
            assert(after.rooms@[n] == room);
        }
        assert forall|name: Seq<char>| #[trigger]
            after@.contains_key(name) implies self@.insert(room.name@, room.users@).contains_key(
            name,
        ) && after@[name] == self@.insert(room.name@, room.users@)[name] by {
            let k = place_of(after.names(), name);
            assert(after.names().contains(name));
            assert(after.names()[k] == name);
            if k < self.names().len() {
                assert(self.names()[k] == name);
                assert(self.names().contains(name));
                assert(place_of(self.names(), name) == k);
                assert(after.rooms@[k] == self.rooms@[k]);
            } else {
                assert(k == self.names().len());
                assert(name == room.name@);
                assert(after.rooms@[k] == room);
            }
        }
        assert forall|name: Seq<char>| #[trigger]
            self@.insert(room.name@, room.users@).contains_key(name) implies after@.contains_key(
            name,
        ) by {
            if name == room.name@ {
                assert(after.names()[self.names().len() as int] == name);
            } else {
                let k = place_of(self.names(), name);
                assert(after.names()[k] == name);
            }
        }
        assert(after@ =~= self@.insert(room.name@, room.users@));
    }

    /// Without the room at `at` the directory lacks the entry of its name
    /// and no other.
    proof fn lemma_removed(&self, after: &Rooms, at: int)
        requires
            self.wf(),
            0 <= at < self.rooms@.len(),
            after.rooms@ == self.rooms@.remove(at),
        ensures
            after.wf(),
            after@ == self@.remove(self.names()[at]),
            same_channels(self, after, self@.remove(self.names()[at])),
    {
        let gone = self.names()[at];
        assert(after.names() =~= self.names().remove(at));
        assert forall|r: Seq<char>| #[trigger]
            self@.remove(gone).contains_key(r) implies after.channel(r) == self.channel(r) by {
            let b = place_of(self.names(), r);
            assert(self.names()[b] == r);
            let k = if b < at { b } else { b - 1 };
            assert(after.names()[k] == r);
            assert forall|i: int, j: int|
                0 <= i < after.names().len() && 0 <= j < after.names().len() && i
                    != j implies after.names()[i] != after.names()[j] by {
                let bi = if i < at { i } else { i + 1 };
                let bj = if j < at { j } else { j + 1 };
                assert(after.names()[i] == self.names()[bi]);
                assert(after.names()[j] == self.names()[bj]);
            }
            assert(after.names().contains(r));
            assert(place_of(after.names(), r) == k);
            assert(after.rooms@[k] == self.rooms@[b]);
        }
        assert forall|i: int, j: int|
            0 <= i < after.names().len() && 0 <= j < after.names().len() && i != j implies after.names()[i]
            != after.names()[j] by {
            let bi = if i < at { i } else { i + 1 };
            let bj = if j < at { j } else { j + 1 };
            assert(after.names()[i] == self.names()[bi]);
            assert(after.names()[j] == self.names()[bj]);
        }
        assert forall|name: Seq<char>| #[trigger]
            after@.contains_key(name) implies self@.remove(gone).contains_key(name) && after@[name]
            == self@.remove(gone)[name] by {
            let k = place_of(after.names(), name);
            let b = if k < at { k } else { k + 1 };
            assert(self.names()[b] == name);
            assert(place_of(self.names(), name) == b);
        }
        assert forall|name: Seq<char>| #[trigger]
            self@.remove(gone).contains_key(name) implies after@.contains_key(name) by {
            let b = place_of(self.names(), name);
            let k = if b < at { b } else { b - 1 };
            assert(after.names()[k] == name);
        }
        assert(after@ =~= self@.remove(gone));
    }

    /// Puts `user_name` into the room `room_name`, which is made where it
    /// was not there, and gives a sending side of the room's channel.
    pub fn join(&mut self, room_name: &str, user_name: &str) -> (tx: Sender<RoomEvent>)
        requires
            old(self).wf(),
        ensures
            final(self).wf(),
            final(self)@ == joined(old(self)@, room_name@, user_name@),
            channel_of(tx) == final(self).channel(room_name@),
            capacity_of(tx) == ROOM_CHANNEL_CAPACITY,
            same_channels(old(self), final(self), old(self)@),
    {
        let ghost before = *self;
        match self.position(room_name) {
            Some(at) => {
                let mut room = self.rooms.remove(at);
                room.users.insert(String::from_str(user_name));
                let tx = share(&room.tx);
                proof {
                    assert(before.rooms@.remove(at as int).insert(at as int, room)
                        =~= before.rooms@.update(at as int, room));
                }
                self.rooms.insert(at, room);
                proof {
                    before.lemma_replaced(&*self, at as int, self.rooms@[at as int]);
                }
                tx
            },
            None => {
                let mut users = NameSet::new();
                users.insert(String::from_str(user_name));
                let tx = open_channel(ROOM_CHANNEL_CAPACITY);
                let shared = share(&tx);
                let room = Room { name: String::from_str(room_name), tx, users };
                self.rooms.push(room);
                proof {
                    before.lemma_pushed(&*self, self.rooms@[before.rooms@.len() as int]);
                }
                shared
            },
        }
    }

    /// Takes `user_name` out of the room `room_name`, whose channel has
    /// `receivers` receivers, the one of the leaving user included. With at
    /// most one receiver the room is removed. Where there is no such room,
    /// nothing changes.
    pub fn leave_counted(&mut self, room_name: &str, user_name: &str, receivers: usize)
        requires
            old(self).wf(),
        ensures
            final(self).wf(),
            final(self)@ == left(old(self)@, room_name@, user_name@, receivers as nat),
            same_channels(old(self), final(self), final(self)@),
    {
        let ghost before = *self;
        match self.position(room_name) {
            Some(at) => {
                let mut room = self.rooms.remove(at);
                if receivers <= 1 {
                    proof {
                        before.lemma_removed(&*self, at as int);
                    }
                } else {
                    room.users.remove(user_name);
                    proof {
                        assert(before.rooms@.remove(at as int).insert(at as int, room)
                            =~= before.rooms@.update(at as int, room));
                    }
                    self.rooms.insert(at, room);
                    proof {
                        before.lemma_replaced(&*self, at as int, self.rooms@[at as int]);
                    }
                }
            },
            None => {},
        }
    }

    /// Takes `user_name` out of the room `room_name`, and removes the room
    /// where its channel is left with at most one receiver, that of the
    /// leaving user.
    pub fn leave(&mut self, room_name: &str, user_name: &str)
        requires
            old(self).wf(),
        ensures
            final(self).wf(),
            exists|receivers: nat| final(self)@ == #[trigger] left(
                old(self)@,
                room_name@,
                user_name@,
                receivers,
            ),
            same_channels(old(self), final(self), final(self)@),
    {
        let receivers: usize = self.subscribers(room_name);
        self.leave_counted(room_name, user_name, receivers);
    }

    /// Moves `user_name` from the room `prev_room`, whose channel has
    /// `receivers` receivers, to the room `next_room`, and gives a sending
    /// side of the channel of `next_room`.
    pub fn change_counted(
        &mut self,
        prev_room: &str,
        next_room: &str,
        user_name: &str,
        receivers: usize,
    ) -> (tx: Sender<RoomEvent>)
        requires
            old(self).wf(),
        ensures
            final(self).wf(),
            final(self)@ == joined(
                left(old(self)@, prev_room@, user_name@, receivers as nat),
                next_room@,
                user_name@,
            ),
            channel_of(tx) == final(self).channel(next_room@),
            capacity_of(tx) == ROOM_CHANNEL_CAPACITY,
            same_channels(
                old(self),
                final(self),
                left(old(self)@, prev_room@, user_name@, receivers as nat),
            ),
    {
        self.leave_counted(prev_room, user_name, receivers);
        self.join(next_room, user_name)
    }

    /// Moves `user_name` from the room `prev_room` to the room `next_room`,
    /// and gives a sending side of the channel of `next_room`.
    pub fn change(&mut self, prev_room: &str, next_room: &str, user_name: &str) -> (tx: Sender<
        RoomEvent,
    >)
        requires
            old(self).wf(),
        ensures
            final(self).wf(),
            exists|receivers: nat|
                {
                    &&& final(self)@ == joined(
                        #[trigger] left(old(self)@, prev_room@, user_name@, receivers),
                        next_room@,
                        user_name@,
                    )
                    &&& same_channels(
                        old(self),
                        final(self),
                        left(old(self)@, prev_room@, user_name@, receivers),
                    )
                },
            channel_of(tx) == final(self).channel(next_room@),
            capacity_of(tx) == ROOM_CHANNEL_CAPACITY,
    {
        let receivers: usize = self.subscribers(prev_room);
        self.change_counted(prev_room, next_room, user_name, receivers)
    }

    /// In the room `room_name`, replaces the handle `prev_name` by
    /// `new_name`. Where there is no such room, nothing changes.
    pub fn change_name(&mut self, room_name: &str, prev_name: &str, new_name: &str)
        requires
            old(self).wf(),
        ensures
            final(self).wf(),
            final(self)@ == renamed(old(self)@, room_name@, prev_name@, new_name@),
            same_channels(old(self), final(self), old(self)@),
    {
        let ghost before = *self;
        match self.position(room_name) {
            Some(at) => {
                let mut room = self.rooms.remove(at);
                room.users.remove(prev_name);
                room.users.insert(String::from_str(new_name));
                proof {
                    assert(before.rooms@.remove(at as int).insert(at as int, room)
                        =~= before.rooms@.update(at as int, room));
                }
                self.rooms.insert(at, room);
                proof {
                    before.lemma_replaced(&*self, at as int, self.rooms@[at as int]);
                }
            },
            None => {},
        }
    }

    /// The rooms with the number of receivers that each one's channel has
    /// at this moment, in listing order.
    pub fn list(&self) -> (listing: Vec<(String, usize)>)
        requires
            self.wf(),
        ensures
            listing_fits(entry_views(listing@), self@),
    {
        let mut entries: Vec<(String, usize)> = Vec::new();
        let mut i: usize = 0;
        while i < self.rooms.len()
            invariant
                i <= self.rooms.len(),
                entry_names(entry_views(entries@)) =~= self.names().take(i as int),
            decreases self.rooms.len() - i,
        {
            let name = self.rooms[i].name.clone();
            let receivers: usize = receiver_count(&self.rooms[i].tx);
            let ghost had = entry_names(entry_views(entries@));
            entries.push((name, receivers));
            i += 1;
            proof {
                assert(name@ == self.names()[i - 1]);
                assert(entry_names(entry_views(entries@)) =~= had.push(name@));
                assert(self.names().take(i as int) =~= self.names().take(i - 1).push(
                    self.names()[i - 1],
                ));
            }
        }
        let listing = sort_listing(entries);
        proof {
            assert(self.names().take(self.rooms@.len() as int) =~= self.names());
            lemma_sorted_is_listing(entry_views(entries@), entry_views(listing@));
            assert(self@.dom() =~= self.names().to_set());
        }
        listing
    }

    /// The handles of the users in the room `room_name`, each once, in
    /// ascending order; nothing where there is no such room.
    pub fn list_users(&self, room_name: &str) -> (users: Option<Vec<String>>)
        requires
            self.wf(),
        ensures
            match users {
                Some(v) => {
                    &&& self@.contains_key(room_name@)
                    &&& ascending(texts(v@))
                    &&& texts(v@).to_set() == self@[room_name@]
                },
                None => !self@.contains_key(room_name@),
            },
    {
        match self.position(room_name) {
            Some(at) => Some(sort_names(self.rooms[at].users.to_vec())),
            None => None,
        }
    }
}

} // verus!
