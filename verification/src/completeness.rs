//! Every exit that a shuffle is given is resolved by exactly one door.

use vstd::prelude::*;
use vstd::multiset::Multiset;
use crate::connection::{
    choice_allowed, exit_other_than, room_other_than, without_exit, without_room, Choice,
    ShuffleError,
};
use crate::laws::pool_of;
use crate::model::{Door, Exit, ExitType, RoomView};
use crate::reachability::room_ids_unique;
use crate::selection::{exits_of_type, of_type};
use crate::sequences::{lemma_filter_keeps_all, lemma_filter_members};
use crate::shuffle::{initial_state, one_way_pairs, PoolState};
use crate::shuffler::Shuffler;

verus! {

broadcast use vstd::multiset::group_multiset_axioms;

/// The ids of the exits, each as often as it occurs.
pub open spec fn exit_ids(exits: Seq<Exit>) -> Multiset<usize>
    decreases exits.len(),
{
    if exits.len() == 0 {
        Multiset::empty()
    } else {
        exit_ids(exits.drop_last()).insert(exits.last().id)
    }
}

/// The exits of the doors, in order.
pub open spec fn door_exits(doors: Seq<Door>) -> Seq<Exit> {
    Seq::new(doors.len(), |k: int| doors[k].1)
}

/// The ids of the exits of all the rooms, each as often as it occurs.
pub open spec fn rooms_exit_ids(rooms: Seq<RoomView>) -> Multiset<usize>
    decreases rooms.len(),
{
    if rooms.len() == 0 {
        Multiset::empty()
    } else {
        rooms_exit_ids(rooms.drop_last()).add(exit_ids(rooms.last().exits()))
    }
}

/// The ids of the exits of the first room and of all the rooms.
pub open spec fn inventory_exit_ids(first_room: RoomView, rooms: Seq<RoomView>) -> Multiset<usize> {
    exit_ids(first_room.exits()).add(rooms_exit_ids(rooms))
}

/// Whether no two exits of the inventory have the same id.
pub open spec fn exit_ids_unique(first_room: RoomView, rooms: Seq<RoomView>) -> bool {
    forall|id: usize| #[trigger] inventory_exit_ids(first_room, rooms).count(id) <= 1
}

/// Two lists of equal length, taken turn by turn.
pub open spec fn alternated(a: Seq<Exit>, b: Seq<Exit>) -> Seq<Exit> {
    Seq::new(
        2 * a.len(),
        |k: int|
            if k % 2 == 0 {
                a[k / 2]
            } else {
                b[k / 2]
            },
    )
}

/// What a shuffle keeps true of the exits from step to step: the exits of
/// the doors, the exits that wait and the exits of the rooms in the pool are
/// together the exits of the inventory.
pub open spec fn exits_kept(first_room: RoomView, rooms: Seq<RoomView>, state: PoolState) -> bool {
    &&& exit_ids(door_exits(state.doors)).add(exit_ids(state.exits)).add(
        rooms_exit_ids(state.rooms),
    ) == inventory_exit_ids(first_room, rooms)
    &&& room_ids_unique(state.rooms)
    &&& forall|i: int| 0 <= i < state.rooms.len() ==> rooms.contains(#[trigger] state.rooms[i])
}

pub proof fn lemma_exit_ids_push(exits: Seq<Exit>, exit: Exit)
    ensures
        exit_ids(exits.push(exit)) == exit_ids(exits).insert(exit.id),
{
    assert(exits.push(exit).drop_last() =~= exits);
}

pub proof fn lemma_exit_ids_add(a: Seq<Exit>, b: Seq<Exit>)
    ensures
        exit_ids(a + b) == exit_ids(a).add(exit_ids(b)),
    decreases b.len(),
{
    if b.len() == 0 {
        assert(a + b =~= a);
        assert(exit_ids(a).add(exit_ids(b)) =~= exit_ids(a));
    } else {
        lemma_exit_ids_add(a, b.drop_last());
        assert((a + b).drop_last() =~= a + b.drop_last());
        assert(exit_ids(a + b) =~= exit_ids(a).add(exit_ids(b)));
    }
}

pub proof fn lemma_exit_ids_member(exits: Seq<Exit>, i: int)
    requires
        0 <= i < exits.len(),
    ensures
        exit_ids(exits).count(exits[i].id) >= 1,
    decreases exits.len(),
{
    if i < exits.len() - 1 {
        lemma_exit_ids_member(exits.drop_last(), i);
    }
}

pub proof fn lemma_exit_ids_without(exits: Seq<Exit>, id: usize)
    ensures
        exit_ids(without_exit(exits, id)).count(id) == 0,
        forall|other: usize|
            other != id ==> #[trigger] exit_ids(without_exit(exits, id)).count(other) == exit_ids(
                exits,
            ).count(other),
    decreases exits.len(),
{
    reveal(Seq::filter);
    if exits.len() > 0 {
        let front = exits.drop_last();
        lemma_exit_ids_without(front, id);
        if exits.last().id != id {
            lemma_exit_ids_push(without_exit(front, id), exits.last());
        }
    }
}

/// Taking out the one exit with an id that occurs once leaves the other
/// ids as they were.
pub proof fn lemma_exit_ids_without_one(exits: Seq<Exit>, id: usize)
    requires
        exit_ids(exits).count(id) == 1,
    ensures
        exit_ids(without_exit(exits, id)).insert(id) == exit_ids(exits),
{
    lemma_exit_ids_without(exits, id);
    assert(exit_ids(without_exit(exits, id)).insert(id) =~= exit_ids(exits));
}

pub proof fn lemma_exit_ids_by_kind(exits: Seq<Exit>)
    ensures
        exit_ids(exits_of_type(exits, ExitType::OneWay)).add(
            exit_ids(exits_of_type(exits, ExitType::TwoWay)),
        ) == exit_ids(exits),
    decreases exits.len(),
{
    reveal(Seq::filter);
    let one_way = exits_of_type(exits, ExitType::OneWay);
    let two_way = exits_of_type(exits, ExitType::TwoWay);
    if exits.len() > 0 {
        let front = exits.drop_last();
        lemma_exit_ids_by_kind(front);
        if exits.last().exit_type == ExitType::OneWay {
            lemma_exit_ids_push(exits_of_type(front, ExitType::OneWay), exits.last());
        } else {
            lemma_exit_ids_push(exits_of_type(front, ExitType::TwoWay), exits.last());
        }
    }
    assert(exit_ids(one_way).add(exit_ids(two_way)) =~= exit_ids(exits));
}

pub proof fn lemma_alternated_ids(a: Seq<Exit>, b: Seq<Exit>)
    requires
        a.len() == b.len(),
    ensures
        exit_ids(alternated(a, b)) == exit_ids(a).add(exit_ids(b)),
    decreases a.len(),
{
    if a.len() == 0 {
        assert(exit_ids(alternated(a, b)) =~= exit_ids(a).add(exit_ids(b)));
    } else {
        let front_a = a.drop_last();
        let front_b = b.drop_last();
        lemma_alternated_ids(front_a, front_b);
        let shorter = alternated(front_a, front_b);
        assert(alternated(a, b) =~= shorter.push(a.last()).push(b.last()));
        lemma_exit_ids_push(shorter, a.last());
        lemma_exit_ids_push(shorter.push(a.last()), b.last());
        assert(exit_ids(alternated(a, b)) =~= exit_ids(a).add(exit_ids(b)));
    }
}

pub proof fn lemma_door_exits_add(a: Seq<Door>, b: Seq<Door>)
    ensures
        exit_ids(door_exits(a + b)) == exit_ids(door_exits(a)).add(exit_ids(door_exits(b))),
{
    assert(door_exits(a + b) =~= door_exits(a) + door_exits(b));
    lemma_exit_ids_add(door_exits(a), door_exits(b));
}

/// Taking a room out of rooms with distinct ids takes out its exits and no
/// others.
pub proof fn lemma_rooms_exit_ids_without(rooms: Seq<RoomView>, k: int)
    requires
        room_ids_unique(rooms),
        0 <= k < rooms.len(),
    ensures
        rooms_exit_ids(without_room(rooms, rooms[k].id)).add(exit_ids(rooms[k].exits()))
            == rooms_exit_ids(rooms),
    decreases rooms.len(),
{
    reveal(Seq::filter);
    let id = rooms[k].id;
    let front = rooms.drop_last();
    assert(room_ids_unique(front)) by {
        assert forall|i: int, j: int| 0 <= i < j < front.len() implies (#[trigger] front[i]).id != (
        #[trigger] front[j]).id by {
            assert(front[i] == rooms[i] && front[j] == rooms[j]);
        }
    }
    if k == rooms.len() - 1 {
        assert forall|i: int| 0 <= i < front.len() implies room_other_than(id)(
            #[trigger] front[i],
        ) by {
            assert(front[i] == rooms[i]);
        }
        lemma_filter_keeps_all(front, room_other_than(id));
        assert(without_room(rooms, id) == front);
    } else {
        assert(front[k] == rooms[k]);
        lemma_rooms_exit_ids_without(front, k);
        let kept = without_room(front, id);
        assert(rooms[rooms.len() - 1].id != rooms[k].id);
        assert(without_room(rooms, id) == kept.push(rooms.last()));
        assert(kept.push(rooms.last()).drop_last() =~= kept);
        assert(rooms_exit_ids(without_room(rooms, id)).add(exit_ids(rooms[k].exits()))
            =~= rooms_exit_ids(rooms));
    }
}

/// Rooms with distinct ids keep distinct ids when some are taken out.
pub proof fn lemma_without_room_keeps_unique(rooms: Seq<RoomView>, id: usize)
    requires
        room_ids_unique(rooms),
    ensures
        room_ids_unique(without_room(rooms, id)),
    decreases rooms.len(),
{
    reveal(Seq::filter);
    if rooms.len() > 0 {
        let front = rooms.drop_last();
        assert(room_ids_unique(front)) by {
            assert forall|i: int, j: int| 0 <= i < j < front.len() implies (
            #[trigger] front[i]).id != (#[trigger] front[j]).id by {
                assert(front[i] == rooms[i] && front[j] == rooms[j]);
            }
        }
        lemma_without_room_keeps_unique(front, id);
        let kept = without_room(front, id);
        if rooms.last().id != id {
            lemma_filter_members(front, room_other_than(id));
            assert forall|i: int, j: int|
                0 <= i < j < kept.push(rooms.last()).len() implies (#[trigger] kept.push(
                rooms.last(),
            )[i]).id != (#[trigger] kept.push(rooms.last())[j]).id by {
                if j == kept.len() {
                    assert(kept.contains(kept[i]));
                    let w = choose|w: int| 0 <= w < front.len() && front[w] == kept[i];
                    assert(rooms[w] == kept[i]);
                    assert(rooms[w].id != rooms[rooms.len() - 1].id);
                } else {
                    assert(kept[i].id != kept[j].id);
                }
            }
        }
    }
}

impl Shuffler {
    /// Whether the exit on the other side of each two-way entrance of a room
    /// has the id of one of that room's own two-way exits.
    pub open spec fn back_exits_at_home(&self, rooms: Seq<RoomView>) -> bool {
        forall|i: int, j: int|
            0 <= i < rooms.len() && 0 <= j < rooms[i].two_way_entrances.len()
                ==> match self.corresponding_exit(#[trigger] rooms[i].two_way_entrances[j]) {
                Some(exit) => exit_ids(rooms[i].two_way_exits).count(exit.id) >= 1,
                None => true,
            }
    }

    proof fn lemma_step_keeps_exits(
        &self,
        first_room: RoomView,
        rooms: Seq<RoomView>,
        state: PoolState,
        choice: Choice,
    )
        requires
            exit_ids_unique(first_room, rooms),
            self.back_exits_at_home(rooms),
            exits_kept(first_room, rooms, state),
            choice_allowed(state.exits, state.rooms, choice),
            self.advanced(state, choice) is Ok,
        ensures
            exits_kept(first_room, rooms, self.advanced(state, choice)->Ok_0),
    {
        let room = state.rooms[choice.room];
        let next = self.advanced(state, choice)->Ok_0;
        let one_way = choice.exit.exit_type == ExitType::OneWay;
        let made = self.resolved(room, choice.entrance, choice.exit, one_way)->Ok_0;
        let total = inventory_exit_ids(first_room, rooms);
        let in_doors = exit_ids(door_exits(state.doors));
        let waiting = exit_ids(state.exits);
        let in_rooms = rooms_exit_ids(state.rooms);
        let id = choice.exit.id;
        assert(total.count(id) <= 1);
        let w = choose|w: int| 0 <= w < state.exits.len() && state.exits[w] == choice.exit;
        lemma_exit_ids_member(state.exits, w);
        assert(waiting.count(id) == 1);
        lemma_exit_ids_without_one(state.exits, id);
        let still_waiting = exit_ids(without_exit(state.exits, id));
        lemma_exit_ids_add(without_exit(state.exits, id), made.remaining_exits);
        lemma_rooms_exit_ids_without(state.rooms, choice.room);
        let brought = exit_ids(room.exits());
        lemma_exit_ids_add(room.one_way_exits, room.two_way_exits);
        lemma_door_exits_add(state.doors, made.doors);
        assert(rooms.contains(room));
        let home = choose|i: int| 0 <= i < rooms.len() && rooms[i] == room;
        if one_way {
            assert(door_exits(made.doors) =~= Seq::<Exit>::empty().push(choice.exit));
            lemma_exit_ids_push(Seq::<Exit>::empty(), choice.exit);
            assert(exit_ids(door_exits(next.doors)).add(exit_ids(next.exits)).add(
                rooms_exit_ids(next.rooms),
            ) =~= total);
        } else {
            let back_exit = self.corresponding_exit(choice.entrance)->Some_0;
            let at = choose|j: int|
                0 <= j < room.two_way_entrances.len() && room.two_way_entrances[j]
                    == choice.entrance;
            assert(rooms[home].two_way_entrances[at] == choice.entrance);
            assert(exit_ids(room.two_way_exits).count(back_exit.id) >= 1);
            assert(total.count(back_exit.id) <= 1);
            assert(exit_ids(room.two_way_exits).count(back_exit.id) == 1);
            lemma_exit_ids_without_one(room.two_way_exits, back_exit.id);
            lemma_exit_ids_add(room.one_way_exits, without_exit(room.two_way_exits, back_exit.id));
            assert(door_exits(made.doors) =~= Seq::<Exit>::empty().push(choice.exit).push(
                back_exit,
            ));
            lemma_exit_ids_push(Seq::<Exit>::empty(), choice.exit);
            lemma_exit_ids_push(Seq::<Exit>::empty().push(choice.exit), back_exit);
            assert(exit_ids(door_exits(next.doors)).add(exit_ids(next.exits)).add(
                rooms_exit_ids(next.rooms),
            ) =~= total);
        }
        lemma_without_room_keeps_unique(state.rooms, room.id);
        lemma_filter_members(state.rooms, room_other_than(room.id));
        assert forall|i: int| 0 <= i < next.rooms.len() implies rooms.contains(
            #[trigger] next.rooms[i],
        ) by {
            assert(next.rooms.contains(next.rooms[i]));
            let v = choose|v: int| 0 <= v < state.rooms.len() && state.rooms[v] == next.rooms[i];
            assert(rooms.contains(state.rooms[v]));
        }
    }

    proof fn lemma_leftovers_keep_exits(&self, state: PoolState)
        requires
            state.rooms.len() == 0,
            self.finished(state) is Ok,
        ensures
            exit_ids(door_exits(self.finished(state)->Ok_0)) == exit_ids(
                door_exits(state.doors),
            ).add(exit_ids(state.exits)),
    {
        let one_way = exits_of_type(state.exits, ExitType::OneWay);
        let two_way = exits_of_type(state.exits, ExitType::TwoWay);
        let first_pairs = one_way_pairs(state.leftover_one_way_entrances, one_way);
        let second_pairs = self.two_way_pairs(two_way);
        let half = (two_way.len() / 2) as int;
        assert(door_exits(first_pairs) =~= one_way);
        assert(door_exits(second_pairs) =~= alternated(two_way.take(half), two_way.skip(half)));
        lemma_alternated_ids(two_way.take(half), two_way.skip(half));
        assert(two_way =~= two_way.take(half) + two_way.skip(half));
        lemma_exit_ids_add(two_way.take(half), two_way.skip(half));
        lemma_exit_ids_by_kind(state.exits);
        lemma_door_exits_add(first_pairs, second_pairs);
        lemma_door_exits_add(state.doors, first_pairs + second_pairs);
        assert(exit_ids(door_exits(self.finished(state)->Ok_0)) =~= exit_ids(
            door_exits(state.doors),
        ).add(exit_ids(state.exits)));
    }

    /// The exits of the doors of a shuffle are the exits of the first room
    /// and of the rooms it was given to connect, and each of them is the exit
    /// of exactly one door. This holds provided that no two of those exits
    /// and no two of those rooms have the same id, and that the exit on the
    /// other side of each two-way entrance of a room is one of that room's
    /// own two-way exits.
    pub proof fn lemma_every_exit_resolved_once(
        &self,
        first_room: RoomView,
        all_rooms: Seq<RoomView>,
        choices: Seq<Choice>,
        doors: Seq<Door>,
    )
        requires
            self.outcome(first_room, all_rooms, choices) == Some(
                Ok::<Seq<Door>, ShuffleError>(doors),
            ),
            exit_ids_unique(first_room, pool_of(first_room, all_rooms)),
            room_ids_unique(pool_of(first_room, all_rooms)),
            self.back_exits_at_home(pool_of(first_room, all_rooms)),
        ensures
            exit_ids(door_exits(doors)) == inventory_exit_ids(
                first_room,
                pool_of(first_room, all_rooms),
            ),
            forall|id: usize|
                inventory_exit_ids(first_room, pool_of(first_room, all_rooms)).count(id) >= 1
                    ==> #[trigger] exit_ids(door_exits(doors)).count(id) == 1,
    {
        let rooms = pool_of(first_room, all_rooms);
        let start = initial_state(first_room, all_rooms);
        let holds = |state: PoolState| exits_kept(first_room, rooms, state);
        assert(holds(start)) by {
            assert(door_exits(start.doors) =~= Seq::<Exit>::empty());
            assert(exit_ids(door_exits(start.doors)).add(exit_ids(start.exits)).add(
                rooms_exit_ids(start.rooms),
            ) =~= inventory_exit_ids(first_room, rooms));
        }
        assert forall|state: PoolState, choice: Choice|
            #![trigger self.advanced(state, choice)]
            holds(state) && choice_allowed(state.exits, state.rooms, choice) && self.advanced(
                state,
                choice,
            ) is Ok implies holds(self.advanced(state, choice)->Ok_0) by {
            self.lemma_step_keeps_exits(first_room, rooms, state, choice);
        }
        self.lemma_replay_keeps(start, choices, holds);
        let state = self.replayed(start, choices)->Some_0->Ok_0;
        self.lemma_leftovers_keep_exits(state);
        assert(exit_ids(door_exits(doors)) =~= inventory_exit_ids(first_room, rooms));
        assert forall|id: usize| inventory_exit_ids(first_room, rooms).count(id) >= 1 implies
            #[trigger] exit_ids(door_exits(doors)).count(id) == 1 by {
            assert(inventory_exit_ids(first_room, rooms).count(id) <= 1);
        }
    }
}

/// An id that two exits have occurs twice at least.
pub proof fn lemma_exit_ids_twice(exits: Seq<Exit>, j: int, k: int)
    requires
        0 <= j < k < exits.len(),
        exits[j].id == exits[k].id,
    ensures
        exit_ids(exits).count(exits[j].id) >= 2,
    decreases exits.len(),
{
    let front = exits.drop_last();
    if k < exits.len() - 1 {
        lemma_exit_ids_twice(front, j, k);
    } else {
        lemma_exit_ids_member(front, j);
    }
}

/// Doors of which no exit id occurs twice have exits with different ids at
/// different places.
pub proof fn lemma_doors_have_distinct_exits(doors: Seq<Door>, j: int, k: int)
    requires
        forall|id: usize| #[trigger] exit_ids(door_exits(doors)).count(id) <= 1,
        0 <= j < doors.len(),
        0 <= k < doors.len(),
        j != k,
    ensures
        doors[j].1.id != doors[k].1.id,
{
    if doors[j].1.id == doors[k].1.id {
        if j < k {
            lemma_exit_ids_twice(door_exits(doors), j, k);
        } else {
            lemma_exit_ids_twice(door_exits(doors), k, j);
        }
        assert(exit_ids(door_exits(doors)).count(doors[j].1.id) <= 1);
    }
}

/// Whether each id occurs in the part at most as often as in the whole.
pub open spec fn held_in(part: Multiset<usize>, whole: Multiset<usize>) -> bool {
    forall|id: usize| #[trigger] part.count(id) <= whole.count(id)
}

pub proof fn lemma_rooms_exit_ids_push(rooms: Seq<RoomView>, room: RoomView)
    ensures
        rooms_exit_ids(rooms.push(room)) == rooms_exit_ids(rooms).add(exit_ids(room.exits())),
{
    assert(rooms.push(room).drop_last() =~= rooms);
}

/// Taking rooms out takes exits out and brings none in.
pub proof fn lemma_rooms_exit_ids_shrink(rooms: Seq<RoomView>, id: usize)
    ensures
        held_in(rooms_exit_ids(without_room(rooms, id)), rooms_exit_ids(rooms)),
    decreases rooms.len(),
{
    reveal(Seq::filter);
    if rooms.len() > 0 {
        let front = rooms.drop_last();
        lemma_rooms_exit_ids_shrink(front, id);
        let kept = without_room(front, id);
        if rooms.last().id != id {
            lemma_rooms_exit_ids_push(kept, rooms.last());
        }
        assert forall|other: usize| #[trigger]
            rooms_exit_ids(without_room(rooms, id)).count(other) <= rooms_exit_ids(rooms).count(
                other,
            ) by {
            assert(rooms_exit_ids(kept).count(other) <= rooms_exit_ids(front).count(other));
        }
    }
}

/// Taking out the rooms with the id of one room takes out the exits of that
/// room at least.
pub proof fn lemma_rooms_exit_ids_without_part(rooms: Seq<RoomView>, k: int)
    requires
        0 <= k < rooms.len(),
    ensures
        held_in(
            rooms_exit_ids(without_room(rooms, rooms[k].id)).add(exit_ids(rooms[k].exits())),
            rooms_exit_ids(rooms),
        ),
    decreases rooms.len(),
{
    reveal(Seq::filter);
    let id = rooms[k].id;
    let front = rooms.drop_last();
    let kept = without_room(front, id);
    let taken = exit_ids(rooms[k].exits());
    if k == rooms.len() - 1 {
        lemma_rooms_exit_ids_shrink(front, id);
        assert forall|other: usize| #[trigger]
            rooms_exit_ids(without_room(rooms, id)).add(taken).count(other) <= rooms_exit_ids(
                rooms,
            ).count(other) by {
            assert(rooms_exit_ids(kept).count(other) <= rooms_exit_ids(front).count(other));
        }
    } else {
        assert(front[k] == rooms[k]);
        lemma_rooms_exit_ids_without_part(front, k);
        if rooms.last().id != id {
            lemma_rooms_exit_ids_push(kept, rooms.last());
        }
        assert forall|other: usize| #[trigger]
            rooms_exit_ids(without_room(rooms, id)).add(taken).count(other) <= rooms_exit_ids(
                rooms,
            ).count(other) by {
            assert(rooms_exit_ids(kept).add(taken).count(other) <= rooms_exit_ids(front).count(
                other,
            ));
        }
    }
}

impl Shuffler {
    /// The rooms that the steps with the given choices connect, in order.
    pub open spec fn connected_rooms(&self, start: PoolState, choices: Seq<Choice>) -> Seq<
        RoomView,
    >
        decreases choices.len(),
    {
        if choices.len() == 0 {
            Seq::empty()
        } else {
            let before = self.connected_rooms(start, choices.drop_last());
            match self.replayed(start, choices.drop_last()) {
                Some(Ok(state)) => before.push(state.rooms[choices.last().room]),
                _ => before,
            }
        }
    }

    /// What a shuffle keeps true of the exits it has been given so far: the
    /// exits of the doors and the exits that wait are together the exits of
    /// the first room and of the rooms connected so far, and with the exits
    /// of the rooms in the pool they are exits of the inventory.
    pub open spec fn introduced_kept(
        &self,
        first_room: RoomView,
        rooms: Seq<RoomView>,
        connected: Seq<RoomView>,
        state: PoolState,
    ) -> bool {
        &&& exit_ids(door_exits(state.doors)).add(exit_ids(state.exits)) == exit_ids(
            first_room.exits(),
        ).add(rooms_exit_ids(connected))
        &&& held_in(
            exit_ids(door_exits(state.doors)).add(exit_ids(state.exits)).add(
                rooms_exit_ids(state.rooms),
            ),
            inventory_exit_ids(first_room, rooms),
        )
        &&& forall|i: int| 0 <= i < state.rooms.len() ==> rooms.contains(#[trigger] state.rooms[i])
    }

    proof fn lemma_step_keeps_introduced(
        &self,
        first_room: RoomView,
        rooms: Seq<RoomView>,
        connected: Seq<RoomView>,
        state: PoolState,
        choice: Choice,
    )
        requires
            exit_ids_unique(first_room, rooms),
            self.back_exits_at_home(rooms),
            self.introduced_kept(first_room, rooms, connected, state),
            choice_allowed(state.exits, state.rooms, choice),
            self.advanced(state, choice) is Ok,
        ensures
            self.introduced_kept(
                first_room,
                rooms,
                connected.push(state.rooms[choice.room]),
                self.advanced(state, choice)->Ok_0,
            ),
    {
        let room = state.rooms[choice.room];
        let next = self.advanced(state, choice)->Ok_0;
        let one_way = choice.exit.exit_type == ExitType::OneWay;
        let made = self.resolved(room, choice.entrance, choice.exit, one_way)->Ok_0;
        let total = inventory_exit_ids(first_room, rooms);
        let in_doors = exit_ids(door_exits(state.doors));
        let waiting = exit_ids(state.exits);
        let in_rooms = rooms_exit_ids(state.rooms);
        let all = in_doors.add(waiting).add(in_rooms);
        let id = choice.exit.id;
        assert(total.count(id) <= 1);
        assert(all.count(id) <= total.count(id));
        let w = choose|w: int| 0 <= w < state.exits.len() && state.exits[w] == choice.exit;
        lemma_exit_ids_member(state.exits, w);
        assert(waiting.count(id) == 1);
        lemma_exit_ids_without_one(state.exits, id);
        lemma_exit_ids_add(without_exit(state.exits, id), made.remaining_exits);
        lemma_rooms_exit_ids_without_part(state.rooms, choice.room);
        lemma_rooms_exit_ids_push(connected, room);
        let brought = exit_ids(room.exits());
        let left_rooms = rooms_exit_ids(next.rooms);
        lemma_exit_ids_add(room.one_way_exits, room.two_way_exits);
        lemma_door_exits_add(state.doors, made.doors);
        assert(rooms.contains(room));
        let home = choose|i: int| 0 <= i < rooms.len() && rooms[i] == room;
        let next_doors = exit_ids(door_exits(next.doors));
        let next_waiting = exit_ids(next.exits);
        if one_way {
            assert(door_exits(made.doors) =~= Seq::<Exit>::empty().push(choice.exit));
            lemma_exit_ids_push(Seq::<Exit>::empty(), choice.exit);
            assert(next_doors.add(next_waiting) =~= in_doors.add(waiting).add(brought));
        } else {
            let back_exit = self.corresponding_exit(choice.entrance)->Some_0;
            let at = choose|j: int|
                0 <= j < room.two_way_entrances.len() && room.two_way_entrances[j]
                    == choice.entrance;
            assert(rooms[home].two_way_entrances[at] == choice.entrance);
            let two_way = exit_ids(room.two_way_exits);
            assert(two_way.count(back_exit.id) >= 1);
            assert(total.count(back_exit.id) <= 1);
            assert(all.count(back_exit.id) <= total.count(back_exit.id));
            assert(left_rooms.add(brought).count(back_exit.id) <= in_rooms.count(back_exit.id));
            assert(two_way.count(back_exit.id) == 1);
            lemma_exit_ids_without_one(room.two_way_exits, back_exit.id);
            lemma_exit_ids_add(room.one_way_exits, without_exit(room.two_way_exits, back_exit.id));
            assert(door_exits(made.doors) =~= Seq::<Exit>::empty().push(choice.exit).push(
                back_exit,
            ));
            lemma_exit_ids_push(Seq::<Exit>::empty(), choice.exit);
            lemma_exit_ids_push(Seq::<Exit>::empty().push(choice.exit), back_exit);
            assert(next_doors.add(next_waiting) =~= in_doors.add(waiting).add(brought));
        }
        assert(next_doors.add(next_waiting) =~= exit_ids(first_room.exits()).add(
            rooms_exit_ids(connected.push(room)),
        ));
        assert forall|other: usize| #[trigger]
            next_doors.add(next_waiting).add(left_rooms).count(other) <= total.count(other) by {
            assert(left_rooms.add(brought).count(other) <= in_rooms.count(other));
            assert(all.count(other) <= total.count(other));
        }
        lemma_filter_members(state.rooms, room_other_than(room.id));
        assert forall|i: int| 0 <= i < next.rooms.len() implies rooms.contains(
            #[trigger] next.rooms[i],
        ) by {
            assert(next.rooms.contains(next.rooms[i]));
            let v = choose|v: int| 0 <= v < state.rooms.len() && state.rooms[v] == next.rooms[i];
            assert(rooms.contains(state.rooms[v]));
        }
    }

    proof fn lemma_replay_keeps_introduced(
        &self,
        first_room: RoomView,
        all_rooms: Seq<RoomView>,
        choices: Seq<Choice>,
    )
        requires
            exit_ids_unique(first_room, pool_of(first_room, all_rooms)),
            self.back_exits_at_home(pool_of(first_room, all_rooms)),
            self.replayed(initial_state(first_room, all_rooms), choices) is Some,
            self.replayed(initial_state(first_room, all_rooms), choices)->Some_0 is Ok,
        ensures
            self.introduced_kept(
                first_room,
                pool_of(first_room, all_rooms),
                self.connected_rooms(initial_state(first_room, all_rooms), choices),
                self.replayed(initial_state(first_room, all_rooms), choices)->Some_0->Ok_0,
            ),
        decreases choices.len(),
    {
        let rooms = pool_of(first_room, all_rooms);
        let start = initial_state(first_room, all_rooms);
        if choices.len() == 0 {
            assert(door_exits(start.doors) =~= Seq::<Exit>::empty());
            assert(exit_ids(door_exits(start.doors)).add(exit_ids(start.exits)) =~= exit_ids(
                first_room.exits(),
            ).add(rooms_exit_ids(Seq::<RoomView>::empty())));
            assert forall|id: usize| #[trigger]
                exit_ids(door_exits(start.doors)).add(exit_ids(start.exits)).add(
                    rooms_exit_ids(start.rooms),
                ).count(id) <= inventory_exit_ids(first_room, rooms).count(id) by {}
        } else {
            let before = choices.drop_last();
            self.lemma_replay_keeps_introduced(first_room, all_rooms, before);
            let state = self.replayed(start, before)->Some_0->Ok_0;
            self.lemma_step_keeps_introduced(
                first_room,
                rooms,
                self.connected_rooms(start, before),
                state,
                choices.last(),
            );
        }
    }

    /// Every exit that a shuffle is given, by the first room or by a room
    /// that it connects, is the exit of exactly one of its doors, and the
    /// doors have no other exits. This holds provided that no two exits of
    /// the inventory have the same id and that the exit on the other side of
    /// each two-way entrance of a room is one of that room's own two-way
    /// exits.
    pub proof fn lemma_every_introduced_exit_resolved_once(
        &self,
        first_room: RoomView,
        all_rooms: Seq<RoomView>,
        choices: Seq<Choice>,
        doors: Seq<Door>,
    )
        requires
            self.outcome(first_room, all_rooms, choices) == Some(
                Ok::<Seq<Door>, ShuffleError>(doors),
            ),
            exit_ids_unique(first_room, pool_of(first_room, all_rooms)),
            self.back_exits_at_home(pool_of(first_room, all_rooms)),
        ensures
            exit_ids(door_exits(doors)) == exit_ids(first_room.exits()).add(
                rooms_exit_ids(
                    self.connected_rooms(initial_state(first_room, all_rooms), choices),
                ),
            ),
            forall|id: usize| #[trigger] exit_ids(door_exits(doors)).count(id) <= 1,
    {
        let rooms = pool_of(first_room, all_rooms);
        let start = initial_state(first_room, all_rooms);
        self.lemma_replay_keeps_introduced(first_room, all_rooms, choices);
        let state = self.replayed(start, choices)->Some_0->Ok_0;
        self.lemma_leftovers_keep_exits(state);
        let total = inventory_exit_ids(first_room, rooms);
        let given = exit_ids(door_exits(state.doors)).add(exit_ids(state.exits));
        assert forall|id: usize| #[trigger] exit_ids(door_exits(doors)).count(id) <= 1 by {
            assert(given.add(rooms_exit_ids(state.rooms)).count(id) <= total.count(id));
            assert(total.count(id) <= 1);
        }
    }
}

} // verus!
