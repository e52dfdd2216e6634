//! Every room that a shuffle connects can be walked to from the first room.

use vstd::prelude::*;
use crate::connection::{choice_allowed, exit_other_than, room_other_than, Choice, ShuffleError};
use crate::laws::pool_of;
use crate::model::{Destination, Door, Exit, RoomView};
use crate::sequences::lemma_filter_members;
use crate::shuffle::{initial_state, PoolState};
use crate::shuffler::Shuffler;

verus! {

/// Whether an exit has the id of one of the room's exits.
pub open spec fn has_exit(room: RoomView, exit: Exit) -> bool {
    exists|i: int| 0 <= i < room.exits().len() && (#[trigger] room.exits()[i]).id == exit.id
}

/// Whether a destination has the id of one of the room's entrances.
pub open spec fn has_entrance(room: RoomView, destination: Destination) -> bool {
    ||| exists|i: int|
        0 <= i < room.one_way_entrances.len() && (#[trigger] room.one_way_entrances[i]).id
            == destination.id
    ||| exists|i: int|
        0 <= i < room.two_way_entrances.len() && (#[trigger] room.two_way_entrances[i]).id
            == destination.id
}

/// Whether the door leads out of one room and into the other.
pub open spec fn leads(door: Door, from: RoomView, to: RoomView) -> bool {
    has_exit(from, door.1) && has_entrance(to, door.0)
}

/// Whether `room` can be walked to from the first room through at most
/// `steps` doors, each of which leaves the first room or one of `rooms`.
pub open spec fn reachable_within(
    first_room: RoomView,
    rooms: Seq<RoomView>,
    doors: Seq<Door>,
    room: RoomView,
    steps: nat,
) -> bool
    decreases steps,
{
    room == first_room || (steps > 0 && exists|from: RoomView, k: int|
        #![trigger leads(doors[k], from, room)]
        (from == first_room || rooms.contains(from)) && 0 <= k < doors.len() && leads(
            doors[k],
            from,
            room,
        ) && reachable_within(first_room, rooms, doors, from, (steps - 1) as nat))
}

/// Whether `room` can be walked to from the first room.
pub open spec fn reachable(
    first_room: RoomView,
    rooms: Seq<RoomView>,
    doors: Seq<Door>,
    room: RoomView,
) -> bool {
    exists|steps: nat| reachable_within(first_room, rooms, doors, room, steps)
}

/// Whether every one of the rooms can be walked to from the first room.
pub open spec fn all_reachable(first_room: RoomView, rooms: Seq<RoomView>, doors: Seq<Door>) -> bool {
    forall|i: int| 0 <= i < rooms.len() ==> reachable(first_room, rooms, doors, #[trigger] rooms[i])
}

/// Whether no two of the rooms have the same id.
pub open spec fn room_ids_unique(rooms: Seq<RoomView>) -> bool {
    forall|i: int, j: int|
        0 <= i < j < rooms.len() ==> (#[trigger] rooms[i]).id != (#[trigger] rooms[j]).id
}

/// Whether the exit belongs to a room that can be walked to.
pub open spec fn owner_reachable(
    first_room: RoomView,
    rooms: Seq<RoomView>,
    doors: Seq<Door>,
    exit: Exit,
) -> bool {
    exists|owner: RoomView|
        (owner == first_room || rooms.contains(owner)) && #[trigger] has_exit(owner, exit)
            && reachable(first_room, rooms, doors, owner)
}

/// What a shuffle keeps true of the ways from step to step: a room that has
/// left the pool can be walked to, and so can the owner of every waiting
/// exit.
pub open spec fn ways_kept(first_room: RoomView, rooms: Seq<RoomView>, state: PoolState) -> bool {
    &&& forall|i: int|
        0 <= i < rooms.len() ==> state.rooms.contains(#[trigger] rooms[i]) || reachable(
            first_room,
            rooms,
            state.doors,
            rooms[i],
        )
    &&& forall|i: int|
        0 <= i < state.exits.len() ==> owner_reachable(
            first_room,
            rooms,
            state.doors,
            #[trigger] state.exits[i],
        )
    &&& forall|i: int| 0 <= i < state.rooms.len() ==> rooms.contains(#[trigger] state.rooms[i])
}

/// More doors take no way away.
pub proof fn lemma_reachable_within_grows(
    first_room: RoomView,
    rooms: Seq<RoomView>,
    doors: Seq<Door>,
    more: Seq<Door>,
    room: RoomView,
    steps: nat,
)
    requires
        reachable_within(first_room, rooms, doors, room, steps),
    ensures
        reachable_within(first_room, rooms, doors + more, room, steps),
    decreases steps,
{
    if room != first_room {
        let (from, k) = choose|from: RoomView, k: int|
            #![trigger leads(doors[k], from, room)]
            (from == first_room || rooms.contains(from)) && 0 <= k < doors.len() && leads(
                doors[k],
                from,
                room,
            ) && reachable_within(first_room, rooms, doors, from, (steps - 1) as nat);
        lemma_reachable_within_grows(first_room, rooms, doors, more, from, (steps - 1) as nat);
        assert((doors + more)[k] == doors[k]);
        assert(leads((doors + more)[k], from, room));
    }
}

/// More doors take no way away.
pub proof fn lemma_reachable_grows(
    first_room: RoomView,
    rooms: Seq<RoomView>,
    doors: Seq<Door>,
    more: Seq<Door>,
    room: RoomView,
)
    requires
        reachable(first_room, rooms, doors, room),
    ensures
        reachable(first_room, rooms, doors + more, room),
{
    let steps = choose|steps: nat| reachable_within(first_room, rooms, doors, room, steps);
    lemma_reachable_within_grows(first_room, rooms, doors, more, room, steps);
}

proof fn lemma_owner_reachable_grows(
    first_room: RoomView,
    rooms: Seq<RoomView>,
    doors: Seq<Door>,
    more: Seq<Door>,
    exit: Exit,
)
    requires
        owner_reachable(first_room, rooms, doors, exit),
    ensures
        owner_reachable(first_room, rooms, doors + more, exit),
{
    let owner = choose|owner: RoomView|
        (owner == first_room || rooms.contains(owner)) && #[trigger] has_exit(owner, exit)
            && reachable(first_room, rooms, doors, owner);
    lemma_reachable_grows(first_room, rooms, doors, more, owner);
}

impl Shuffler {
    proof fn lemma_step_keeps_ways(
        &self,
        first_room: RoomView,
        rooms: Seq<RoomView>,
        state: PoolState,
        choice: Choice,
    )
        requires
            room_ids_unique(rooms),
            ways_kept(first_room, rooms, state),
            choice_allowed(state.exits, state.rooms, choice),
            self.advanced(state, choice) is Ok,
        ensures
            ways_kept(first_room, rooms, self.advanced(state, choice)->Ok_0),
    {
        let room = state.rooms[choice.room];
        let next = self.advanced(state, choice)->Ok_0;
        let kind = choice.exit.exit_type;
        let one_way = kind == crate::model::ExitType::OneWay;
        let made = self.resolved(room, choice.entrance, choice.exit, one_way)->Ok_0;
        assert(next.doors == state.doors + made.doors);
        assert(rooms.contains(room));
        let home = choose|i: int| 0 <= i < rooms.len() && rooms[i] == room;
        let at = choose|j: int|
            0 <= j < room.entrances(kind).len() && room.entrances(kind)[j] == choice.entrance;
        assert(has_entrance(room, choice.entrance)) by {
            if one_way {
                assert(room.one_way_entrances[at].id == choice.entrance.id);
            } else {
                assert(room.two_way_entrances[at].id == choice.entrance.id);
            }
        }
        let waiting = choose|i: int| 0 <= i < state.exits.len() && state.exits[i] == choice.exit;
        assert(owner_reachable(first_room, rooms, state.doors, state.exits[waiting]));
        let owner = choose|owner: RoomView|
            (owner == first_room || rooms.contains(owner)) && #[trigger] has_exit(
                owner,
                choice.exit,
            ) && reachable(first_room, rooms, state.doors, owner);
        let steps = choose|steps: nat|
            reachable_within(first_room, rooms, state.doors, owner, steps);
        lemma_reachable_within_grows(first_room, rooms, state.doors, made.doors, owner, steps);
        let through = state.doors.len() as int;
        assert(next.doors[through] == Door(choice.entrance, choice.exit));
        assert(leads(next.doors[through], owner, room));
        assert(reachable_within(first_room, rooms, next.doors, room, steps + 1));
        assert(reachable(first_room, rooms, next.doors, room));
        lemma_filter_members(state.rooms, room_other_than(room.id));
        assert forall|i: int| 0 <= i < rooms.len() implies next.rooms.contains(
            #[trigger] rooms[i],
        ) || reachable(first_room, rooms, next.doors, rooms[i]) by {
            if state.rooms.contains(rooms[i]) {
                if rooms[i].id == room.id {
                    assert(i == home);
                }
            } else {
                lemma_reachable_grows(first_room, rooms, state.doors, made.doors, rooms[i]);
            }
        }
        let kept = state.exits.filter(exit_other_than(choice.exit.id));
        lemma_filter_members(state.exits, exit_other_than(choice.exit.id));
        assert forall|i: int| 0 <= i < next.exits.len() implies owner_reachable(
            first_room,
            rooms,
            next.doors,
            #[trigger] next.exits[i],
        ) by {
            let exit = next.exits[i];
            if i < kept.len() {
                assert(kept[i] == exit);
                assert(kept.contains(exit));
                let w = choose|w: int| 0 <= w < state.exits.len() && state.exits[w] == exit;
                assert(owner_reachable(first_room, rooms, state.doors, state.exits[w]));
                lemma_owner_reachable_grows(first_room, rooms, state.doors, made.doors, exit);
            } else {
                let n = i - kept.len();
                assert(made.remaining_exits[n] == exit);
                if one_way {
                    assert(room.exits()[n] == exit);
                } else {
                    let back_exit = self.corresponding_exit(choice.entrance)->Some_0;
                    let others = room.two_way_exits.filter(exit_other_than(back_exit.id));
                    lemma_filter_members(room.two_way_exits, exit_other_than(back_exit.id));
                    if n < room.one_way_exits.len() {
                        assert(room.exits()[n] == exit);
                    } else {
                        assert(others[n - room.one_way_exits.len()] == exit);
                        assert(others.contains(exit));
                        let t = choose|t: int|
                            0 <= t < room.two_way_exits.len() && room.two_way_exits[t] == exit;
                        assert(room.exits()[room.one_way_exits.len() + t] == exit);
                    }
                }
                assert(has_exit(room, exit));
            }
        }
        assert forall|i: int| 0 <= i < next.rooms.len() implies rooms.contains(
            #[trigger] next.rooms[i],
        ) by {
            assert(next.rooms.contains(next.rooms[i]));
            let w = choose|w: int| 0 <= w < state.rooms.len() && state.rooms[w] == next.rooms[i];
            assert(rooms.contains(state.rooms[w]));
        }
    }

    /// After a shuffle every room that it was given to connect can be walked
    /// to from the first room through the doors it returns, provided that no
    /// two of those rooms have the same id.
    pub proof fn lemma_all_rooms_reachable(
        &self,
        first_room: RoomView,
        all_rooms: Seq<RoomView>,
        choices: Seq<Choice>,
        doors: Seq<Door>,
    )
        requires
            self.outcome(first_room, all_rooms, choices) == Some(
                Ok::<Seq<Door>, ShuffleError>(doors),
            ),
            room_ids_unique(pool_of(first_room, all_rooms)),
        ensures
            all_reachable(first_room, pool_of(first_room, all_rooms), doors),
    {
        let rooms = pool_of(first_room, all_rooms);
        let start = initial_state(first_room, all_rooms);
        let holds = |state: PoolState| ways_kept(first_room, rooms, state);
        assert(holds(start)) by {
            assert forall|i: int| 0 <= i < start.exits.len() implies owner_reachable(
                first_room,
                rooms,
                start.doors,
                #[trigger] start.exits[i],
            ) by {
                assert(first_room.exits()[i].id == start.exits[i].id);
                assert(has_exit(first_room, start.exits[i]));
                assert(reachable_within(first_room, rooms, start.doors, first_room, 0));
            }
            assert forall|i: int| 0 <= i < rooms.len() implies start.rooms.contains(
                #[trigger] rooms[i],
            ) by {
                assert(start.rooms[i] == rooms[i]);
            }
        }
        assert forall|state: PoolState, choice: Choice|
            #![trigger self.advanced(state, choice)]
            holds(state) && choice_allowed(state.exits, state.rooms, choice) && self.advanced(
                state,
                choice,
            ) is Ok implies holds(self.advanced(state, choice)->Ok_0) by {
            self.lemma_step_keeps_ways(first_room, rooms, state, choice);
        }
        self.lemma_replay_keeps(start, choices, holds);
        let state = self.replayed(start, choices)->Some_0->Ok_0;
        let more = self.leftover_doors(state.exits, state.leftover_one_way_entrances)->Ok_0;
        assert(doors == state.doors + more);
        assert forall|i: int| 0 <= i < rooms.len() implies reachable(
            first_room,
            rooms,
            doors,
            #[trigger] rooms[i],
        ) by {
            assert(!state.rooms.contains(rooms[i]));
            lemma_reachable_grows(first_room, rooms, state.doors, more, rooms[i]);
        }
    }
}

} // verus!
