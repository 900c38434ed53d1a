//! The server as a whole: the registry, the directory and the sessions that
//! have not ended, and what holds of them after every step.
use vstd::prelude::*;
use crate::protocol::MAIN;
use crate::rooms::{joined, left, renamed, Directory};
use crate::session::{react, EventText, Phase, Seen, SessionView, World};

verus! {

/// The registry, the directory, and the sessions that have not ended.
pub struct Hub {
    pub names: Set<Seq<char>>,
    pub rooms: Directory,
    pub sessions: Seq<SessionView>,
}

/// The sessions with this handle.
pub open spec fn named(handle: Seq<char>) -> spec_fn(SessionView) -> bool {
    |s: SessionView| s.handle == handle
}

/// The sessions in this room.
pub open spec fn within(room: Seq<char>) -> spec_fn(SessionView) -> bool {
    |s: SessionView| s.phase == Phase::Active && s.room == room
}

/// The sessions in this room with this handle.
pub open spec fn member(room: Seq<char>, handle: Seq<char>) -> spec_fn(SessionView) -> bool {
    |s: SessionView| s.phase == Phase::Active && s.room == room && s.handle == handle
}

/// Whether some session is one of `which`.
pub open spec fn any(sessions: Seq<SessionView>, which: spec_fn(SessionView) -> bool) -> bool {
    exists|j: int| 0 <= j < sessions.len() && #[trigger] which(sessions[j])
}

/// Whether some session other than number `i` is one of `which`.
pub open spec fn any_other(
    sessions: Seq<SessionView>,
    i: int,
    which: spec_fn(SessionView) -> bool,
) -> bool {
    exists|j: int| 0 <= j < sessions.len() && j != i && #[trigger] which(sessions[j])
}

/// How many sessions are of `which`.
pub open spec fn count(sessions: Seq<SessionView>, which: spec_fn(SessionView) -> bool) -> nat
    decreases sessions.len(),
{
    if sessions.len() == 0 {
        0
    } else {
        count(sessions.drop_last(), which) + if which(sessions.last()) {
            1nat
        } else {
            0nat
        }
    }
}

/// How many sessions subscribe to the channel of `room`: those that are in
/// the room.
pub open spec fn subscribers(sessions: Seq<SessionView>, room: Seq<char>) -> nat {
    count(sessions, within(room))
}

/// The handles of the sessions, in order.
pub open spec fn handles(sessions: Seq<SessionView>) -> Seq<Seq<char>> {
    sessions.map_values(|s: SessionView| s.handle)
}

/// The registry holds the handles of the sessions and no other.
pub open spec fn names_match(names: Set<Seq<char>>, sessions: Seq<SessionView>) -> bool {
    forall|h: Seq<char>| names.contains(h) <==> #[trigger] any(sessions, named(h))
}

/// The directory holds the rooms of the sessions and lists their handles,
/// and nothing else.
pub open spec fn rooms_match(rooms: Directory, sessions: Seq<SessionView>) -> bool {
    &&& forall|r: Seq<char>| rooms.contains_key(r) <==> #[trigger] any(sessions, within(r))
    &&& forall|r: Seq<char>, h: Seq<char>|
        rooms.contains_key(r) ==> (rooms[r].contains(h) <==> #[trigger] any(sessions, member(r, h)))
}

/// None of the sessions has ended, no two of them have the same handle,
/// the registry holds their handles and no other, the directory holds the
/// rooms that have a session in them and no other, and each room lists the
/// handles of the sessions in it and no other.
pub open spec fn consistent(hub: Hub) -> bool {
    &&& forall|i: int| 0 <= i < hub.sessions.len() ==> (#[trigger] hub.sessions[i]).phase != Phase::Done
    &&& handles(hub.sessions).no_duplicates()
    &&& names_match(hub.names, hub.sessions)
    &&& rooms_match(hub.rooms, hub.sessions)
}

/// Nothing of `which` among no sessions; otherwise the count says whether
/// there is any.
pub proof fn lemma_count_none(sessions: Seq<SessionView>, which: spec_fn(SessionView) -> bool)
    ensures
        count(sessions, which) == 0 <==> !any(sessions, which),
    decreases sessions.len(),
{
    if sessions.len() > 0 {
        let front = sessions.drop_last();
        lemma_count_none(front, which);
        if any(front, which) {
            let j = choose|j: int| 0 <= j < front.len() && #[trigger] which(front[j]);
            assert(which(sessions[j]));
        }
        if any(sessions, which) {
            let j = choose|j: int| 0 <= j < sessions.len() && #[trigger] which(sessions[j]);
            if j < front.len() {
                assert(which(front[j]));
            }
        }
        if which(sessions.last()) {
            assert(which(sessions[sessions.len() - 1]));
        }
    }
}

/// Where session number `i` is of `which`, the count is 1 exactly when no
/// other session is.
pub proof fn lemma_count_one(
    sessions: Seq<SessionView>,
    which: spec_fn(SessionView) -> bool,
    i: int,
)
    requires
        0 <= i < sessions.len(),
        which(sessions[i]),
    ensures
        count(sessions, which) >= 1,
        count(sessions, which) <= 1 <==> !any_other(sessions, i, which),
    decreases sessions.len(),
{
    let front = sessions.drop_last();
    let last = sessions.len() - 1;
    if i == last {
        lemma_count_none(front, which);
        if any(front, which) {
            let j = choose|j: int| 0 <= j < front.len() && #[trigger] which(front[j]);
            assert(which(sessions[j]));
        }
        if any_other(sessions, i, which) {
            let j = choose|j: int| 0 <= j < sessions.len() && j != i && #[trigger] which(sessions[j]);
            assert(which(front[j]));
        }
    } else {
        assert(front[i] == sessions[i]);
        lemma_count_one(front, which, i);
        if any_other(front, i, which) {
            let j = choose|j: int| 0 <= j < front.len() && j != i && #[trigger] which(front[j]);
            assert(which(sessions[j]));
        }
        if which(sessions.last()) {
            assert(which(sessions[last]));
        }
        if any_other(sessions, i, which) {
            let j = choose|j: int| 0 <= j < sessions.len() && j != i && #[trigger] which(sessions[j]);
            if j < last {
                assert(which(front[j]));
            }
        }
    }
}

/// In a consistent hub the registry holds as many handles as there are
/// sessions that have not ended.
pub proof fn lemma_registry_counts_sessions(hub: Hub)
    requires
        consistent(hub),
    ensures
        hub.names.finite(),
        hub.names.len() == hub.sessions.len(),
{
    let hs = handles(hub.sessions);
    assert forall|h: Seq<char>| hub.names.contains(h) <==> hs.to_set().contains(h) by {
        if any(hub.sessions, named(h)) {
            let j = choose|j: int| 0 <= j < hub.sessions.len() && #[trigger] named(h)(hub.sessions[j]);
            assert(hs[j] == h);
        }
        if hs.contains(h) {
            let j = choose|j: int| 0 <= j < hs.len() && hs[j] == h;
            assert(named(h)(hub.sessions[j]));
        }
    }
    assert(hub.names =~= hs.to_set());
    hs.unique_seq_to_set();
    vstd::seq_lib::seq_to_set_is_finite(hs);
}

/// In a consistent hub the users of every room of the directory are the
/// handles of the sessions whose room it is.
pub proof fn lemma_rooms_list_their_sessions(hub: Hub, room: Seq<char>)
    requires
        consistent(hub),
        hub.rooms.contains_key(room),
    ensures
        hub.rooms[room] == Set::new(
            |h: Seq<char>|
                exists|j: int|
                    0 <= j < hub.sessions.len() && (#[trigger] hub.sessions[j]).phase
                        == Phase::Active && hub.sessions[j].room == room && hub.sessions[j].handle
                        == h,
        ),
{
    let listed = Set::new(
        |h: Seq<char>|
            exists|j: int|
                0 <= j < hub.sessions.len() && (#[trigger] hub.sessions[j]).phase == Phase::Active
                    && hub.sessions[j].room == room && hub.sessions[j].handle == h,
    );
    assert forall|h: Seq<char>| hub.rooms[room].contains(h) <==> listed.contains(h) by {
        if any(hub.sessions, member(room, h)) {
            let j = choose|j: int|
                0 <= j < hub.sessions.len() && #[trigger] member(room, h)(hub.sessions[j]);
            assert(hub.sessions[j].phase == Phase::Active);
        }
        if listed.contains(h) {
            let j = choose|j: int|
                0 <= j < hub.sessions.len() && (#[trigger] hub.sessions[j]).phase == Phase::Active
                    && hub.sessions[j].room == room && hub.sessions[j].handle == h;
            assert(member(room, h)(hub.sessions[j]));
        }
    }
    assert(hub.rooms[room] =~= listed);
}

/// In a consistent hub the directory holds a room exactly when the room
/// has at least one subscriber.
pub proof fn lemma_rooms_have_subscribers(hub: Hub, room: Seq<char>)
    requires
        consistent(hub),
    ensures
        hub.rooms.contains_key(room) <==> subscribers(hub.sessions, room) >= 1,
{
    lemma_count_none(hub.sessions, within(room));
}

/// Some session is of `which` exactly when session number `i` or another
/// one is.
pub proof fn lemma_any_split(
    sessions: Seq<SessionView>,
    i: int,
    which: spec_fn(SessionView) -> bool,
)
    requires
        0 <= i < sessions.len(),
    ensures
        any(sessions, which) <==> which(sessions[i]) || any_other(sessions, i, which),
{
    if any_other(sessions, i, which) {
        let j = choose|j: int| 0 <= j < sessions.len() && j != i && #[trigger] which(sessions[j]);
        assert(which(sessions[j]));
    }
}

/// With `next` in place of session number `i`, some session is of `which`
/// exactly when `next` or one of the others is.
pub proof fn lemma_any_updated(
    sessions: Seq<SessionView>,
    i: int,
    next: SessionView,
    which: spec_fn(SessionView) -> bool,
)
    requires
        0 <= i < sessions.len(),
    ensures
        any(sessions.update(i, next), which) <==> which(next) || any_other(sessions, i, which),
{
    let after = sessions.update(i, next);
    if any(after, which) {
        let j = choose|j: int| 0 <= j < after.len() && #[trigger] which(after[j]);
        if j != i {
            assert(which(sessions[j]));
        }
    }
    if any_other(sessions, i, which) {
        let j = choose|j: int| 0 <= j < sessions.len() && j != i && #[trigger] which(sessions[j]);
        assert(which(after[j]));
    }
    if which(next) {
        assert(which(after[i]));
    }
}

/// Without session number `i`, some session is of `which` exactly when one
/// of the others is.
pub proof fn lemma_any_removed(
    sessions: Seq<SessionView>,
    i: int,
    which: spec_fn(SessionView) -> bool,
)
    requires
        0 <= i < sessions.len(),
    ensures
        any(sessions.remove(i), which) <==> any_other(sessions, i, which),
{
    let after = sessions.remove(i);
    if any(after, which) {
        let j = choose|j: int| 0 <= j < after.len() && #[trigger] which(after[j]);
        if j < i {
            assert(which(sessions[j]));
        } else {
            assert(which(sessions[j + 1]));
        }
    }
    if any_other(sessions, i, which) {
        let j = choose|j: int| 0 <= j < sessions.len() && j != i && #[trigger] which(sessions[j]);
        if j < i {
            assert(which(after[j]));
        } else {
            assert(which(after[j - 1]));
        }
    }
}

/// With one more session, some session is of `which` exactly when the new
/// one or one of the others is.
pub proof fn lemma_any_pushed(
    sessions: Seq<SessionView>,
    next: SessionView,
    which: spec_fn(SessionView) -> bool,
)
    ensures
        any(sessions.push(next), which) <==> which(next) || any(sessions, which),
{
    let after = sessions.push(next);
    if any(after, which) {
        let j = choose|j: int| 0 <= j < after.len() && #[trigger] which(after[j]);
        if j < sessions.len() {
            assert(which(sessions[j]));
        }
    }
    if any(sessions, which) {
        let j = choose|j: int| 0 <= j < sessions.len() && #[trigger] which(sessions[j]);
        assert(which(after[j]));
    }
    if which(next) {
        assert(which(after[sessions.len() as int]));
    }
}

/// The directory holds the rooms of the sessions other than number `i` and
/// lists their handles, and nothing else.
pub open spec fn rooms_match_others(rooms: Directory, sessions: Seq<SessionView>, i: int) -> bool {
    &&& forall|r: Seq<char>| rooms.contains_key(r) <==> #[trigger] any_other(sessions, i, within(r))
    &&& forall|r: Seq<char>, h: Seq<char>|
        rooms.contains_key(r) ==> (rooms[r].contains(h) <==> #[trigger] any_other(
            sessions,
            i,
            member(r, h),
        ))
}

/// Among sessions with different handles, no other session has the handle
/// of session number `i`.
pub proof fn lemma_handle_is_own(sessions: Seq<SessionView>, i: int)
    requires
        0 <= i < sessions.len(),
        handles(sessions).no_duplicates(),
    ensures
        !any_other(sessions, i, named(sessions[i].handle)),
        forall|r: Seq<char>| !any_other(sessions, i, #[trigger] member(r, sessions[i].handle)),
{
    let h = sessions[i].handle;
    if any_other(sessions, i, named(h)) {
        let j = choose|j: int| 0 <= j < sessions.len() && j != i && #[trigger] named(h)(sessions[j]);
        assert(handles(sessions)[j] == handles(sessions)[i]);
    }
    assert forall|r: Seq<char>| !any_other(sessions, i, #[trigger] member(r, h)) by {
        if any_other(sessions, i, member(r, h)) {
            let j = choose|j: int|
                0 <= j < sessions.len() && j != i && #[trigger] member(r, h)(sessions[j]);
            assert(handles(sessions)[j] == handles(sessions)[i]);
        }
    }
}

/// When a session leaves its room, and the channel shows as many receivers
/// as there are sessions in the room, the directory is left as the other
/// sessions need it.
pub proof fn lemma_left_matches_others(
    rooms: Directory,
    sessions: Seq<SessionView>,
    i: int,
    receivers: nat,
)
    requires
        0 <= i < sessions.len(),
        handles(sessions).no_duplicates(),
        rooms_match(rooms, sessions),
        sessions[i].phase == Phase::Active,
        receivers == subscribers(sessions, sessions[i].room),
    ensures
        rooms_match_others(
            left(rooms, sessions[i].room, sessions[i].handle, receivers),
            sessions,
            i,
        ),
{
    let room = sessions[i].room;
    let handle = sessions[i].handle;
    let after = left(rooms, room, handle, receivers);
    assert(within(room)(sessions[i]));
    assert(any(sessions, within(room)));
    lemma_count_one(sessions, within(room), i);
    lemma_handle_is_own(sessions, i);
    assert forall|r: Seq<char>| after.contains_key(r) <==> #[trigger] any_other(
        sessions,
        i,
        within(r),
    ) by {
        lemma_any_split(sessions, i, within(r));
        assert(any(sessions, within(r)) <==> rooms.contains_key(r));
    }
    assert forall|r: Seq<char>, h: Seq<char>| after.contains_key(r) implies (after[r].contains(h)
        <==> #[trigger] any_other(sessions, i, member(r, h))) by {
        lemma_any_split(sessions, i, member(r, h));
        assert(any(sessions, member(r, h)) <==> rooms[r].contains(h));
        if h == handle {
            assert(!any_other(sessions, i, member(r, handle)));
        }
    }
}

/// A session that is in no room leaves the directory as the other sessions
/// need it.
pub proof fn lemma_roomless_matches_others(rooms: Directory, sessions: Seq<SessionView>, i: int)
    requires
        0 <= i < sessions.len(),
        rooms_match(rooms, sessions),
        sessions[i].phase != Phase::Active,
    ensures
        rooms_match_others(rooms, sessions, i),
{
    assert forall|r: Seq<char>| rooms.contains_key(r) <==> #[trigger] any_other(
        sessions,
        i,
        within(r),
    ) by {
        lemma_any_split(sessions, i, within(r));
        assert(any(sessions, within(r)) <==> rooms.contains_key(r));
    }
    assert forall|r: Seq<char>, h: Seq<char>| rooms.contains_key(r) implies (rooms[r].contains(h)
        <==> #[trigger] any_other(sessions, i, member(r, h))) by {
        lemma_any_split(sessions, i, member(r, h));
        assert(any(sessions, member(r, h)) <==> rooms[r].contains(h));
    }
}

/// When a session joins a room, the directory that the other sessions need
/// becomes the one that all of them need.
pub proof fn lemma_joined_matches(
    rooms: Directory,
    sessions: Seq<SessionView>,
    i: int,
    next: SessionView,
)
    requires
        0 <= i < sessions.len(),
        rooms_match_others(rooms, sessions, i),
        next.phase == Phase::Active,
    ensures
        rooms_match(joined(rooms, next.room, next.handle), sessions.update(i, next)),
{
    let after = joined(rooms, next.room, next.handle);
    let now = sessions.update(i, next);
    assert forall|r: Seq<char>| after.contains_key(r) <==> #[trigger] any(now, within(r)) by {
        lemma_any_updated(sessions, i, next, within(r));
        assert(any_other(sessions, i, within(r)) <==> rooms.contains_key(r));
    }
    assert forall|r: Seq<char>, h: Seq<char>| after.contains_key(r) implies (after[r].contains(h)
        <==> #[trigger] any(now, member(r, h))) by {
        lemma_any_updated(sessions, i, next, member(r, h));
        if rooms.contains_key(r) {
            assert(any_other(sessions, i, member(r, h)) <==> rooms[r].contains(h));
        } else {
            assert(!any_other(sessions, i, within(r)));
            if any_other(sessions, i, member(r, h)) {
                let j = choose|j: int|
                    0 <= j < sessions.len() && j != i && #[trigger] member(r, h)(sessions[j]);
                assert(within(r)(sessions[j]));
            }
        }
    }
}

/// Without a session, or with a session in its place that is in no room,
/// the directory that the other sessions need is the one that all need.
pub proof fn lemma_others_match(
    rooms: Directory,
    sessions: Seq<SessionView>,
    i: int,
    next: SessionView,
)
    requires
        0 <= i < sessions.len(),
        rooms_match_others(rooms, sessions, i),
        next.phase != Phase::Active,
    ensures
        rooms_match(rooms, sessions.remove(i)),
        rooms_match(rooms, sessions.update(i, next)),
{
    assert forall|r: Seq<char>| rooms.contains_key(r) <==> #[trigger] any(
        sessions.remove(i),
        within(r),
    ) by {
        lemma_any_removed(sessions, i, within(r));
        assert(any_other(sessions, i, within(r)) <==> rooms.contains_key(r));
    }
    assert forall|r: Seq<char>, h: Seq<char>| rooms.contains_key(r) implies (rooms[r].contains(h)
        <==> #[trigger] any(sessions.remove(i), member(r, h))) by {
        lemma_any_removed(sessions, i, member(r, h));
        assert(any_other(sessions, i, member(r, h)) <==> rooms[r].contains(h));
    }
    assert forall|r: Seq<char>| rooms.contains_key(r) <==> #[trigger] any(
        sessions.update(i, next),
        within(r),
    ) by {
        lemma_any_updated(sessions, i, next, within(r));
        assert(any_other(sessions, i, within(r)) <==> rooms.contains_key(r));
    }
    assert forall|r: Seq<char>, h: Seq<char>| rooms.contains_key(r) implies (rooms[r].contains(h)
        <==> #[trigger] any(sessions.update(i, next), member(r, h))) by {
        lemma_any_updated(sessions, i, next, member(r, h));
        assert(any_other(sessions, i, member(r, h)) <==> rooms[r].contains(h));
    }
}

/// When a session takes a handle that no session has, the directory with
/// the new handle in place of the old one in the session's room is the one
/// that the sessions need.
pub proof fn lemma_renamed_matches(
    rooms: Directory,
    sessions: Seq<SessionView>,
    i: int,
    next: Seq<char>,
)
    requires
        0 <= i < sessions.len(),
        handles(sessions).no_duplicates(),
        rooms_match(rooms, sessions),
        sessions[i].phase == Phase::Active,
    ensures
        rooms_match(
            renamed(rooms, sessions[i].room, sessions[i].handle, next),
            sessions.update(i, SessionView { handle: next, ..sessions[i] }),
        ),
{
    let room = sessions[i].room;
    let handle = sessions[i].handle;
    let receivers = subscribers(sessions, room);
    let changed = SessionView { handle: next, ..sessions[i] };
    let others = left(rooms, room, handle, receivers);
    lemma_left_matches_others(rooms, sessions, i, receivers);
    lemma_joined_matches(others, sessions, i, changed);
    assert(within(room)(sessions[i]));
    assert(any(sessions, within(room)));
    lemma_count_one(sessions, within(room), i);
    lemma_handle_is_own(sessions, i);
    if receivers <= 1 {
        assert forall|h: Seq<char>| rooms[room].remove(handle).contains(h) implies false by {
            lemma_any_split(sessions, i, member(room, h));
            assert(any(sessions, member(room, h)));
            if any_other(sessions, i, member(room, h)) {
                let j = choose|j: int|
                    0 <= j < sessions.len() && j != i && #[trigger] member(room, h)(sessions[j]);
                assert(within(room)(sessions[j]));
            }
        }
        assert(rooms[room].remove(handle) =~= Set::<Seq<char>>::empty());
    }
    assert(joined(others, room, next) =~= renamed(rooms, room, handle, next));
}

/// The handles stay different when a session ends, and when a session
/// keeps its handle or takes one that no session has.
pub proof fn lemma_handles_stay_different(sessions: Seq<SessionView>, i: int, next: SessionView)
    requires
        0 <= i < sessions.len(),
        handles(sessions).no_duplicates(),
        next.handle == sessions[i].handle || !any(sessions, named(next.handle)),
    ensures
        handles(sessions.remove(i)).no_duplicates(),
        handles(sessions.update(i, next)).no_duplicates(),
{
    let before = handles(sessions);
    let removed = handles(sessions.remove(i));
    assert forall|a: int, b: int|
        0 <= a < removed.len() && 0 <= b < removed.len() && a != b implies removed[a]
        != removed[b] by {
        let x = if a < i { a } else { a + 1 };
        let y = if b < i { b } else { b + 1 };
        assert(removed[a] == before[x]);
        assert(removed[b] == before[y]);
    }
    let updated = handles(sessions.update(i, next));
    assert forall|a: int, b: int|
        0 <= a < updated.len() && 0 <= b < updated.len() && a != b implies updated[a]
        != updated[b] by {
        if a != i && b != i {
            assert(updated[a] == before[a]);
            assert(updated[b] == before[b]);
        } else {
            let other = if a == i { b } else { a };
            assert(updated[other] == before[other]);
            assert(before[i] != before[other]);
            if updated[other] == next.handle {
                assert(named(next.handle)(sessions[other]));
            }
        }
    }
}

/// The registry after a session has ended, or has changed its handle for
/// one that no session has, holds the handles of the sessions and no
/// other.
pub proof fn lemma_names_follow(
    names: Set<Seq<char>>,
    sessions: Seq<SessionView>,
    i: int,
    next: SessionView,
)
    requires
        0 <= i < sessions.len(),
        handles(sessions).no_duplicates(),
        names_match(names, sessions),
    ensures
        names_match(names.remove(sessions[i].handle), sessions.remove(i)),
        next.handle == sessions[i].handle ==> names_match(names, sessions.update(i, next)),
        !names.contains(next.handle) ==> names_match(
            names.insert(next.handle).remove(sessions[i].handle),
            sessions.update(i, next),
        ),
{
    let handle = sessions[i].handle;
    lemma_handle_is_own(sessions, i);
    assert(named(handle)(sessions[i]));
    assert forall|h: Seq<char>| names.remove(handle).contains(h) <==> #[trigger] any(
        sessions.remove(i),
        named(h),
    ) by {
        lemma_any_removed(sessions, i, named(h));
        lemma_any_split(sessions, i, named(h));
        assert(names.contains(h) <==> any(sessions, named(h)));
    }
    if next.handle == handle {
        assert forall|h: Seq<char>| names.contains(h) <==> #[trigger] any(
            sessions.update(i, next),
            named(h),
        ) by {
            lemma_any_updated(sessions, i, next, named(h));
            lemma_any_split(sessions, i, named(h));
            assert(names.contains(h) <==> any(sessions, named(h)));
        }
    }
    if !names.contains(next.handle) {
        assert(names.contains(handle) <==> any(sessions, named(handle)));
        assert forall|h: Seq<char>|
            names.insert(next.handle).remove(handle).contains(h) <==> #[trigger] any(
                sessions.update(i, next),
                named(h),
            ) by {
            lemma_any_updated(sessions, i, next, named(h));
            lemma_any_split(sessions, i, named(h));
            assert(names.contains(h) <==> any(sessions, named(h)));
        }
    }
}

/// The hub after a client has been accepted under `handle`: the registry
/// holds the handle, and one more session waits for its greeting.
pub open spec fn accepted(hub: Hub, handle: Seq<char>) -> Hub {
    Hub {
        names: hub.names.insert(handle),
        rooms: hub.rooms,
        sessions: hub.sessions.push(
            SessionView { handle, room: MAIN@, discarding: false, phase: Phase::Greeting },
        ),
    }
}

/// The hub after session number `i` has taken a step. A session that has
/// ended is no longer among the sessions.
pub open spec fn stepped(hub: Hub, i: int, event: EventText, seen: Seen) -> Hub {
    let out = react(
        World { session: hub.sessions[i], names: hub.names, rooms: hub.rooms },
        event,
        seen,
    );
    Hub {
        names: out.world.names,
        rooms: out.world.rooms,
        sessions: if out.world.session.phase == Phase::Done {
            hub.sessions.remove(i)
        } else {
            hub.sessions.update(i, out.world.session)
        },
    }
}

/// A hub without sessions, handles and rooms is consistent.
pub proof fn lemma_empty_is_consistent()
    ensures
        consistent(
            Hub { names: Set::empty(), rooms: Map::empty(), sessions: Seq::empty() },
        ),
{
}

/// Accepting a client under a handle that the registry did not hold keeps
/// the hub consistent.
pub proof fn lemma_accept_keeps_consistent(hub: Hub, handle: Seq<char>)
    requires
        consistent(hub),
        !hub.names.contains(handle),
    ensures
        consistent(accepted(hub, handle)),
{
    let next = SessionView { handle, room: MAIN@, discarding: false, phase: Phase::Greeting };
    let after = accepted(hub, handle);
    assert(handles(after.sessions) =~= handles(hub.sessions).push(handle));
    assert forall|a: int, b: int|
        0 <= a < after.sessions.len() && 0 <= b < after.sessions.len() && a != b implies handles(
        after.sessions,
    )[a] != handles(after.sessions)[b] by {
        let n = hub.sessions.len() as int;
        if a < n && b < n {
            assert(handles(hub.sessions)[a] != handles(hub.sessions)[b]);
        } else {
            let other = if a == n { b } else { a };
            assert(handles(after.sessions)[n] == handle);
            assert(handles(after.sessions)[other] == handles(hub.sessions)[other]);
            if handles(hub.sessions)[other] == handle {
                assert(named(handle)(hub.sessions[other]));
                assert(any(hub.sessions, named(handle)));
            }
        }
    }
    assert forall|h: Seq<char>| after.names.contains(h) <==> #[trigger] any(
        after.sessions,
        named(h),
    ) by {
        lemma_any_pushed(hub.sessions, next, named(h));
        assert(hub.names.contains(h) <==> any(hub.sessions, named(h)));
    }
    assert forall|r: Seq<char>| after.rooms.contains_key(r) <==> #[trigger] any(
        after.sessions,
        within(r),
    ) by {
        lemma_any_pushed(hub.sessions, next, within(r));
        assert(hub.rooms.contains_key(r) <==> any(hub.sessions, within(r)));
    }
    assert forall|r: Seq<char>, h: Seq<char>| after.rooms.contains_key(r) implies (
    after.rooms[r].contains(h) <==> #[trigger] any(after.sessions, member(r, h))) by {
        lemma_any_pushed(hub.sessions, next, member(r, h));
        assert(hub.rooms[r].contains(h) <==> any(hub.sessions, member(r, h)));
    }
}

/// What a step may do to the world: nothing that the others see; or the
/// session enters the first room; or it ends before it has entered; or it
/// ends; or it moves to a room; or it takes a handle that was free.
pub proof fn lemma_step_shapes(w: World, event: EventText, seen: Seen)
    ensures
        ({
            let out = react(w, event, seen);
            let s = w.session;
            let t = out.world.session;
            ||| (out.world.names == w.names && out.world.rooms == w.rooms && t.handle == s.handle
                && t.room == s.room && t.phase == s.phase)
            ||| (s.phase == Phase::Greeting && t.phase == Phase::Active && t.handle == s.handle
                && out.world.names == w.names && out.world.rooms == joined(
                w.rooms,
                t.room,
                s.handle,
            ))
            ||| (s.phase == Phase::Greeting && t.phase == Phase::Done && out.world.names
                == w.names.remove(s.handle) && out.world.rooms == w.rooms)
            ||| (s.phase == Phase::Active && t.phase == Phase::Done && out.world.names
                == w.names.remove(s.handle) && out.world.rooms == left(
                w.rooms,
                s.room,
                s.handle,
                seen.receivers,
            ))
            ||| (s.phase == Phase::Active && t.phase == Phase::Active && t.handle == s.handle
                && out.world.names == w.names && out.world.rooms == joined(
                left(w.rooms, s.room, s.handle, seen.receivers),
                t.room,
                s.handle,
            ))
            ||| (s.phase == Phase::Active && t == (SessionView { handle: t.handle, ..s })
                && !w.names.contains(t.handle) && out.world.names == w.names.insert(
                t.handle,
            ).remove(s.handle) && out.world.rooms == renamed(w.rooms, s.room, s.handle, t.handle))
        }),
{
}

/// A step of a session keeps the hub consistent, provided that the channel
/// of the session's room shows as many receivers as there are sessions in
/// the room.
pub proof fn lemma_step_keeps_consistent(hub: Hub, i: int, event: EventText, seen: Seen)
    requires
        consistent(hub),
        0 <= i < hub.sessions.len(),
        seen.receivers == subscribers(hub.sessions, hub.sessions[i].room),
    ensures
        consistent(stepped(hub, i, event, seen)),
{
    let s = hub.sessions[i];
    let w = World { session: s, names: hub.names, rooms: hub.rooms };
    let out = react(w, event, seen);
    let t = out.world.session;
    let after = stepped(hub, i, event, seen);
    lemma_step_shapes(w, event, seen);
    lemma_names_follow(hub.names, hub.sessions, i, t);
    assert(named(s.handle)(hub.sessions[i]));
    assert(any(hub.sessions, named(s.handle)));
    assert(hub.names.contains(s.handle));
    if out.world.names == w.names && out.world.rooms == w.rooms && t.handle == s.handle && t.room
        == s.room && t.phase == s.phase {
        lemma_handles_stay_different(hub.sessions, i, t);
        assert forall|r: Seq<char>| hub.rooms.contains_key(r) <==> #[trigger] any(
            after.sessions,
            within(r),
        ) by {
            lemma_any_updated(hub.sessions, i, t, within(r));
            lemma_any_split(hub.sessions, i, within(r));
            assert(hub.rooms.contains_key(r) <==> any(hub.sessions, within(r)));
        }
        assert forall|r: Seq<char>, h: Seq<char>| hub.rooms.contains_key(r) implies (
        hub.rooms[r].contains(h) <==> #[trigger] any(after.sessions, member(r, h))) by {
            lemma_any_updated(hub.sessions, i, t, member(r, h));
            lemma_any_split(hub.sessions, i, member(r, h));
            assert(hub.rooms[r].contains(h) <==> any(hub.sessions, member(r, h)));
        }
    } else if s.phase == Phase::Greeting {
        lemma_handles_stay_different(hub.sessions, i, t);
        lemma_roomless_matches_others(hub.rooms, hub.sessions, i);
        if t.phase == Phase::Active {
            lemma_joined_matches(hub.rooms, hub.sessions, i, t);
            } else {
            lemma_others_match(hub.rooms, hub.sessions, i, t);
            }
    } else if t.phase == Phase::Done {
        lemma_handles_stay_different(hub.sessions, i, t);
        lemma_left_matches_others(hub.rooms, hub.sessions, i, seen.receivers);
        lemma_others_match(
            left(hub.rooms, s.room, s.handle, seen.receivers),
            hub.sessions,
            i,
            t,
        );
    } else if t.handle == s.handle {
        lemma_handles_stay_different(hub.sessions, i, t);
        lemma_left_matches_others(hub.rooms, hub.sessions, i, seen.receivers);
        lemma_joined_matches(
            left(hub.rooms, s.room, s.handle, seen.receivers),
            hub.sessions,
            i,
            t,
        );
    } else {
        assert(!any(hub.sessions, named(t.handle)));
        lemma_handles_stay_different(hub.sessions, i, t);
        lemma_renamed_matches(hub.rooms, hub.sessions, i, t.handle);
    }
}

} // verus!
