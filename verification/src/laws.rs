//! What holds of every shuffle, whichever choices are drawn.

use vstd::prelude::*;
use crate::connection::{
    choice_allowed, destination_other_than, exit_other_than, room_other_than, without_room, Choice,
};
use crate::model::{Destination, Door, Exit, ExitType, RoomView};
use crate::selection::{exits_of_type, of_type};
use crate::sequences::lemma_filter_members;
use crate::shuffle::{initial_state, one_way_pairs, PoolState};
use crate::shuffler::Shuffler;

verus! {

/// The rooms that a shuffle connects: those with another id than the first
/// room's.
pub open spec fn pool_of(first_room: RoomView, all_rooms: Seq<RoomView>) -> Seq<RoomView> {
    without_room(all_rooms, first_room.id)
}

/// Whether a destination has the id of an entrance of the kind of one of the
/// rooms.
pub open spec fn is_entrance(rooms: Seq<RoomView>, destination: Destination, kind: ExitType) -> bool {
    exists|i: int, j: int|
        0 <= i < rooms.len() && 0 <= j < rooms[i].entrances(kind).len()
            && #[trigger] rooms[i].entrances(kind)[j].id == destination.id
}

/// Whether an exit is one of the first room's or of one of the rooms'.
pub open spec fn is_inventory_exit(first_room: RoomView, rooms: Seq<RoomView>, exit: Exit) -> bool {
    first_room.exits().contains(exit) || exists|i: int|
        0 <= i < rooms.len() && (#[trigger] rooms[i]).exits().contains(exit)
}

/// Whether every door with a one-way exit leads to a one-way entrance of one
/// of the rooms, and no door with a two-way exit does.
pub open spec fn kinds_respected(rooms: Seq<RoomView>, doors: Seq<Door>) -> bool {
    forall|k: int|
        0 <= k < doors.len() ==> (is_entrance(rooms, (#[trigger] doors[k]).0, ExitType::OneWay) <==> doors[k].1.exit_type
            == ExitType::OneWay)
}

/// Whether no id is that of a one-way entrance and of a two-way entrance.
pub open spec fn entrance_kinds_disjoint(rooms: Seq<RoomView>) -> bool {
    forall|destination: Destination|
        !(#[trigger] is_entrance(rooms, destination, ExitType::OneWay) && is_entrance(
            rooms,
            destination,
            ExitType::TwoWay,
        ))
}

/// Whether no door pairs a one-way entrance with a two-way exit or a two-way
/// entrance with a one-way exit.
pub open spec fn kinds_never_mixed(rooms: Seq<RoomView>, doors: Seq<Door>) -> bool {
    forall|k: int|
        0 <= k < doors.len() ==> !(is_entrance(rooms, (#[trigger] doors[k]).0, ExitType::OneWay)
            && doors[k].1.exit_type == ExitType::TwoWay) && !(is_entrance(
            rooms,
            doors[k].0,
            ExitType::TwoWay,
        ) && doors[k].1.exit_type == ExitType::OneWay)
}

/// What a shuffle keeps true of the kinds from step to step.
pub open spec fn kinds_kept(first_room: RoomView, rooms: Seq<RoomView>, state: PoolState) -> bool {
    &&& kinds_respected(rooms, state.doors)
    &&& forall|i: int|
        0 <= i < state.exits.len() ==> is_inventory_exit(first_room, rooms, #[trigger] state.exits[i])
    &&& forall|i: int| 0 <= i < state.rooms.len() ==> rooms.contains(#[trigger] state.rooms[i])
    &&& forall|i: int|
        0 <= i < state.leftover_one_way_entrances.len() ==> is_entrance(
            rooms,
            #[trigger] state.leftover_one_way_entrances[i],
            ExitType::OneWay,
        )
}

impl Shuffler {
    /// What holds before the first step and is kept by every allowed step
    /// that succeeds holds of the state that the steps lead to.
    pub proof fn lemma_replay_keeps(
        &self,
        start: PoolState,
        choices: Seq<Choice>,
        holds: spec_fn(PoolState) -> bool,
    )
        requires
            holds(start),
            forall|state: PoolState, choice: Choice|
                #![trigger self.advanced(state, choice)]
                holds(state) && choice_allowed(state.exits, state.rooms, choice) && self.advanced(
                    state,
                    choice,
                ) is Ok ==> holds(self.advanced(state, choice)->Ok_0),
            self.replayed(start, choices) is Some,
            self.replayed(start, choices)->Some_0 is Ok,
        ensures
            holds(self.replayed(start, choices)->Some_0->Ok_0),
        decreases choices.len(),
    {
        if choices.len() > 0 {
            self.lemma_replay_keeps(start, choices.drop_last(), holds);
        }
    }

    /// Whether the index keeps to the kinds of the inventory: the other side
    /// of a two-way exit is no one-way entrance, and the other side of a
    /// two-way entrance is a two-way exit.
    pub open spec fn keeps_kinds(&self, first_room: RoomView, rooms: Seq<RoomView>) -> bool {
        &&& forall|exit: Exit|
            is_inventory_exit(first_room, rooms, exit) && exit.exit_type == ExitType::TwoWay
                ==> match #[trigger] self.corresponding_destination(exit) {
                Some(destination) => !is_entrance(rooms, destination, ExitType::OneWay),
                None => true,
            }
        &&& forall|i: int, j: int|
            0 <= i < rooms.len() && 0 <= j < rooms[i].two_way_entrances.len()
                ==> match self.corresponding_exit(#[trigger] rooms[i].two_way_entrances[j]) {
                Some(exit) => exit.exit_type == ExitType::TwoWay,
                None => true,
            }
    }

    proof fn lemma_step_keeps_kinds(
        &self,
        first_room: RoomView,
        rooms: Seq<RoomView>,
        state: PoolState,
        choice: Choice,
    )
        requires
            entrance_kinds_disjoint(rooms),
            self.keeps_kinds(first_room, rooms),
            kinds_kept(first_room, rooms, state),
            choice_allowed(state.exits, state.rooms, choice),
            self.advanced(state, choice) is Ok,
        ensures
            kinds_kept(first_room, rooms, self.advanced(state, choice)->Ok_0),
    {
        let room = state.rooms[choice.room];
        let next = self.advanced(state, choice)->Ok_0;
        let kind = choice.exit.exit_type;
        let one_way = kind == ExitType::OneWay;
        let made = self.resolved(room, choice.entrance, choice.exit, one_way)->Ok_0;
        assert(rooms.contains(room));
        let home = choose|i: int| 0 <= i < rooms.len() && rooms[i] == room;
        let at = choose|j: int|
            0 <= j < room.entrances(kind).len() && room.entrances(kind)[j] == choice.entrance;
        assert(rooms[home].entrances(kind)[at].id == choice.entrance.id);
        assert(is_entrance(rooms, choice.entrance, kind));
        let waiting = choose|i: int| 0 <= i < state.exits.len() && state.exits[i] == choice.exit;
        assert(is_inventory_exit(first_room, rooms, state.exits[waiting]));
        assert(!(is_entrance(rooms, choice.entrance, ExitType::OneWay) && is_entrance(
            rooms,
            choice.entrance,
            ExitType::TwoWay,
        )));
        assert forall|k: int| 0 <= k < next.doors.len() implies (is_entrance(
            rooms,
            (#[trigger] next.doors[k]).0,
            ExitType::OneWay,
        ) <==> next.doors[k].1.exit_type == ExitType::OneWay) by {
            if k < state.doors.len() {
                assert(next.doors[k] == state.doors[k]);
            } else if k == state.doors.len() {
                assert(next.doors[k] == Door(choice.entrance, choice.exit));
            } else {
                let back_destination = self.corresponding_destination(choice.exit)->Some_0;
                let back_exit = self.corresponding_exit(choice.entrance)->Some_0;
                assert(next.doors[k] == Door(back_destination, back_exit));
                assert(rooms[home].two_way_entrances[at] == choice.entrance);
                assert(back_exit.exit_type == ExitType::TwoWay);
            }
        }
        let kept = state.exits.filter(exit_other_than(choice.exit.id));
        lemma_filter_members(state.exits, exit_other_than(choice.exit.id));
        assert forall|i: int| 0 <= i < next.exits.len() implies is_inventory_exit(
            first_room,
            rooms,
            #[trigger] next.exits[i],
        ) by {
            let exit = next.exits[i];
            if i < kept.len() {
                assert(kept[i] == exit);
                assert(kept.contains(exit));
                let w = choose|w: int| 0 <= w < state.exits.len() && state.exits[w] == exit;
                assert(is_inventory_exit(first_room, rooms, state.exits[w]));
            } else {
                let n = i - kept.len();
                assert(made.remaining_exits[n] == exit);
                if one_way {
                    assert(room.exits()[n] == exit);
                } else {
                    let back_exit = self.corresponding_exit(choice.entrance)->Some_0;
                    let others = room.two_way_exits.filter(exit_other_than(back_exit.id));
                    lemma_filter_members(room.two_way_exits, exit_other_than(back_exit.id));
                    if n < room.one_way_exits.len() {
                        assert(room.exits()[n] == exit);
                    } else {
                        assert(others[n - room.one_way_exits.len()] == exit);
                        assert(others.contains(exit));
                        let t = choose|t: int|
                            0 <= t < room.two_way_exits.len() && room.two_way_exits[t] == exit;
                        assert(room.exits()[room.one_way_exits.len() + t] == exit);
                    }
                }
                assert(rooms[home].exits().contains(exit));
            }
        }
        lemma_filter_members(state.rooms, room_other_than(room.id));
        assert forall|i: int| 0 <= i < next.rooms.len() implies rooms.contains(
            #[trigger] next.rooms[i],
        ) by {
            assert(next.rooms.contains(next.rooms[i]));
            let w = choose|w: int| 0 <= w < state.rooms.len() && state.rooms[w] == next.rooms[i];
            assert(rooms.contains(state.rooms[w]));
        }
        let unused = room.one_way_entrances.filter(destination_other_than(choice.entrance.id));
        lemma_filter_members(room.one_way_entrances, destination_other_than(choice.entrance.id));
        assert forall|i: int| 0 <= i < next.leftover_one_way_entrances.len() implies is_entrance(
            rooms,
            #[trigger] next.leftover_one_way_entrances[i],
            ExitType::OneWay,
        ) by {
            let entrance = next.leftover_one_way_entrances[i];
            if i < state.leftover_one_way_entrances.len() {
                assert(state.leftover_one_way_entrances[i] == entrance);
            } else {
                assert(unused[i - state.leftover_one_way_entrances.len()] == entrance);
                assert(unused.contains(entrance));
                let j = choose|j: int|
                    0 <= j < room.one_way_entrances.len() && room.one_way_entrances[j] == entrance;
                assert(rooms[home].entrances(ExitType::OneWay)[j].id == entrance.id);
            }
        }
    }

    proof fn lemma_leftovers_keep_kinds(
        &self,
        first_room: RoomView,
        rooms: Seq<RoomView>,
        state: PoolState,
    )
        requires
            self.keeps_kinds(first_room, rooms),
            kinds_kept(first_room, rooms, state),
            self.finished(state) is Ok,
        ensures
            kinds_respected(rooms, self.finished(state)->Ok_0),
    {
        let doors = self.finished(state)->Ok_0;
        let one_way = exits_of_type(state.exits, ExitType::OneWay);
        let two_way = exits_of_type(state.exits, ExitType::TwoWay);
        let first_pairs = one_way_pairs(state.leftover_one_way_entrances, one_way);
        let second_pairs = self.two_way_pairs(two_way);
        lemma_filter_members(state.exits, of_type(ExitType::OneWay));
        lemma_filter_members(state.exits, of_type(ExitType::TwoWay));
        assert forall|k: int| 0 <= k < doors.len() implies (is_entrance(
            rooms,
            (#[trigger] doors[k]).0,
            ExitType::OneWay,
        ) <==> doors[k].1.exit_type == ExitType::OneWay) by {
            if k < state.doors.len() {
                assert(doors[k] == state.doors[k]);
            } else if k < state.doors.len() + first_pairs.len() {
                let n = k - state.doors.len();
                assert(doors[k] == first_pairs[n]);
                assert(one_way.contains(one_way[n]));
                assert(is_entrance(
                    rooms,
                    state.leftover_one_way_entrances[n],
                    ExitType::OneWay,
                ));
            } else {
                let n = k - state.doors.len() - first_pairs.len();
                let half = two_way.len() / 2;
                assert(doors[k] == second_pairs[n]);
                let from = if n % 2 == 0 {
                    two_way[n / 2]
                } else {
                    two_way[half + n / 2]
                };
                let to = if n % 2 == 0 {
                    two_way[half + n / 2]
                } else {
                    two_way[n / 2]
                };
                assert(two_way.contains(from));
                assert(two_way.contains(to));
                assert(doors[k] == Door(self.corresponding_destination(to)->Some_0, from));
                let w = choose|w: int| 0 <= w < state.exits.len() && state.exits[w] == to;
                assert(is_inventory_exit(first_room, rooms, state.exits[w]));
            }
        }
    }

    /// Of the doors of a shuffle, those with a one-way exit lead to one-way
    /// entrances and those with a two-way exit do not, so that no door pairs
    /// a one-way entrance with a two-way exit or a two-way entrance with a
    /// one-way exit. This holds provided that no id is that of a one-way and
    /// of a two-way entrance and that the index keeps to the kinds of the
    /// inventory.
    pub proof fn lemma_kinds_respected(
        &self,
        first_room: RoomView,
        all_rooms: Seq<RoomView>,
        choices: Seq<Choice>,
        doors: Seq<Door>,
    )
        requires
            self.outcome(first_room, all_rooms, choices) == Some(
                Ok::<Seq<Door>, crate::connection::ShuffleError>(doors),
            ),
            entrance_kinds_disjoint(pool_of(first_room, all_rooms)),
            self.keeps_kinds(first_room, pool_of(first_room, all_rooms)),
        ensures
            kinds_respected(pool_of(first_room, all_rooms), doors),
            kinds_never_mixed(pool_of(first_room, all_rooms), doors),
    {
        let rooms = pool_of(first_room, all_rooms);
        let start = initial_state(first_room, all_rooms);
        let holds = |state: PoolState| kinds_kept(first_room, rooms, state);
        assert(holds(start)) by {
            assert forall|i: int| 0 <= i < start.exits.len() implies is_inventory_exit(
                first_room,
                rooms,
                #[trigger] start.exits[i],
            ) by {
                assert(first_room.exits()[i] == start.exits[i]);
            }
        }
        assert forall|state: PoolState, choice: Choice|
            #![trigger self.advanced(state, choice)]
            holds(state) && choice_allowed(state.exits, state.rooms, choice) && self.advanced(
                state,
                choice,
            ) is Ok implies holds(self.advanced(state, choice)->Ok_0) by {
            self.lemma_step_keeps_kinds(first_room, rooms, state, choice);
        }
        self.lemma_replay_keeps(start, choices, holds);
        let state = self.replayed(start, choices)->Some_0->Ok_0;
        self.lemma_leftovers_keep_kinds(first_room, rooms, state);
        assert forall|k: int| 0 <= k < doors.len() implies !(is_entrance(
            rooms,
            (#[trigger] doors[k]).0,
            ExitType::OneWay,
        ) && doors[k].1.exit_type == ExitType::TwoWay) && !(is_entrance(
            rooms,
            doors[k].0,
            ExitType::TwoWay,
        ) && doors[k].1.exit_type == ExitType::OneWay) by {
            assert(!(is_entrance(rooms, doors[k].0, ExitType::OneWay) && is_entrance(
                rooms,
                doors[k].0,
                ExitType::TwoWay,
            )));
        }
    }

    /// What a shuffle returns rests on nothing but the index, the rooms and
    /// the choices that are drawn: two runs over the same index and rooms
    /// that draw the same choices return the same doors or fail alike.
    pub proof fn lemma_choices_decide_the_doors(
        &self,
        first_room: RoomView,
        all_rooms: Seq<RoomView>,
        choices: Seq<Choice>,
        one: Result<Seq<Door>, crate::connection::ShuffleError>,
        other: Result<Seq<Door>, crate::connection::ShuffleError>,
    )
        requires
            self.outcome(first_room, all_rooms, choices) == Some(one),
            self.outcome(first_room, all_rooms, choices) == Some(other),
        ensures
            one == other,
    {
    }

    /// Whether the index leads from the other side of the door of
    /// `destination` back to a destination with its id.
    pub open spec fn round_trips(&self, destination: Destination) -> bool {
        match self.corresponding_exit(destination) {
            Some(exit) => match self.corresponding_destination(exit) {
                Some(back) => back.id == destination.id,
                None => false,
            },
            None => true,
        }
    }

    /// Whether each of two doors leads to the other side of the other's
    /// exit.
    pub open spec fn reciprocal(&self, a: Door, b: Door) -> bool {
        &&& self.corresponding_destination(b.1) is Some
        &&& self.corresponding_destination(b.1)->Some_0.id == a.0.id
        &&& self.corresponding_destination(a.1) is Some
        &&& self.corresponding_destination(a.1)->Some_0.id == b.0.id
    }

    /// The two doors of a two-way connection are reciprocal, provided that
    /// the index leads from the other side of the entrance back to it.
    pub proof fn lemma_connection_reciprocal(&self, entrance: Destination, exit: Exit)
        requires
            self.doors_made(entrance, exit, false) is Some,
            self.round_trips(entrance),
        ensures
            self.doors_made(entrance, exit, false)->Some_0.len() == 2,
            self.reciprocal(
                self.doors_made(entrance, exit, false)->Some_0[0],
                self.doors_made(entrance, exit, false)->Some_0[1],
            ),
    {
    }

    /// The two doors that pair two leftover two-way exits are reciprocal.
    pub proof fn lemma_leftover_pairs_reciprocal(&self, exits: Seq<Exit>, pair: int)
        requires
            exits.len() % 2 == 0,
            self.all_have_other_side(exits),
            0 <= pair < exits.len() / 2,
        ensures
            self.two_way_pairs(exits).len() == exits.len(),
            self.reciprocal(
                self.two_way_pairs(exits)[2 * pair],
                self.two_way_pairs(exits)[2 * pair + 1],
            ),
    {
        let half = exits.len() / 2;
        assert(self.corresponding_destination(exits[pair]) is Some);
        assert(self.corresponding_destination(exits[half + pair]) is Some);
    }

    /// Whether the door at a place has a partner at another place: a door
    /// such that each of the two leads to the other side of the other's
    /// exit.
    pub open spec fn has_partner(&self, doors: Seq<Door>, k: int) -> bool {
        exists|j: int|
            0 <= j < doors.len() && j != k && #[trigger] self.reciprocal(doors[k], doors[j])
    }

    /// Whether every door with a two-way exit has a partner.
    pub open spec fn all_reciprocated(&self, doors: Seq<Door>) -> bool {
        forall|k: int|
            0 <= k < doors.len() && (#[trigger] doors[k]).1.exit_type == ExitType::TwoWay
                ==> self.has_partner(doors, k)
    }

    /// Whether the index leads from the other side of every two-way entrance
    /// of the rooms back to it.
    pub open spec fn entrances_round_trip(&self, rooms: Seq<RoomView>) -> bool {
        forall|i: int, j: int|
            0 <= i < rooms.len() && 0 <= j < rooms[i].two_way_entrances.len()
                ==> self.round_trips(#[trigger] rooms[i].two_way_entrances[j])
    }

    /// What a shuffle keeps true of the partners from step to step.
    pub open spec fn partners_kept(&self, rooms: Seq<RoomView>, state: PoolState) -> bool {
        &&& self.all_reciprocated(state.doors)
        &&& forall|i: int| 0 <= i < state.rooms.len() ==> rooms.contains(#[trigger] state.rooms[i])
    }

    /// More doors take no partner away.
    pub proof fn lemma_partner_stays(&self, doors: Seq<Door>, more: Seq<Door>, k: int)
        requires
            0 <= k < doors.len(),
            self.has_partner(doors, k),
        ensures
            self.has_partner(doors + more, k),
    {
        let j = choose|j: int|
            0 <= j < doors.len() && j != k && #[trigger] self.reciprocal(doors[k], doors[j]);
        assert((doors + more)[k] == doors[k]);
        assert((doors + more)[j] == doors[j]);
        assert(self.reciprocal((doors + more)[k], (doors + more)[j]));
    }

    proof fn lemma_step_keeps_partners(
        &self,
        rooms: Seq<RoomView>,
        state: PoolState,
        choice: Choice,
    )
        requires
            self.entrances_round_trip(rooms),
            self.partners_kept(rooms, state),
            choice_allowed(state.exits, state.rooms, choice),
            self.advanced(state, choice) is Ok,
        ensures
            self.partners_kept(rooms, self.advanced(state, choice)->Ok_0),
    {
        let room = state.rooms[choice.room];
        let next = self.advanced(state, choice)->Ok_0;
        let one_way = choice.exit.exit_type == ExitType::OneWay;
        let made = self.resolved(room, choice.entrance, choice.exit, one_way)->Ok_0;
        let old = state.doors.len() as int;
        assert(next.doors == state.doors + made.doors);
        assert(rooms.contains(room));
        let home = choose|i: int| 0 <= i < rooms.len() && rooms[i] == room;
        assert forall|k: int|
            0 <= k < next.doors.len() && (#[trigger] next.doors[k]).1.exit_type
                == ExitType::TwoWay implies self.has_partner(next.doors, k) by {
            if k < old {
                assert(next.doors[k] == state.doors[k]);
                self.lemma_partner_stays(state.doors, made.doors, k);
            } else if one_way {
                assert(next.doors[k] == Door(choice.entrance, choice.exit));
            } else {
                let at = choose|j: int|
                    0 <= j < room.two_way_entrances.len() && room.two_way_entrances[j]
                        == choice.entrance;
                assert(rooms[home].two_way_entrances[at] == choice.entrance);
                self.lemma_connection_reciprocal(choice.entrance, choice.exit);
                assert(next.doors[old] == made.doors[0]);
                assert(next.doors[old + 1] == made.doors[1]);
                if k == old {
                    assert(self.reciprocal(next.doors[k], next.doors[old + 1]));
                } else {
                    assert(self.reciprocal(next.doors[k], next.doors[old]));
                }
            }
        }
        lemma_filter_members(state.rooms, room_other_than(room.id));
        assert forall|i: int| 0 <= i < next.rooms.len() implies rooms.contains(
            #[trigger] next.rooms[i],
        ) by {
            assert(next.rooms.contains(next.rooms[i]));
            let w = choose|w: int| 0 <= w < state.rooms.len() && state.rooms[w] == next.rooms[i];
            assert(rooms.contains(state.rooms[w]));
        }
    }

    proof fn lemma_leftovers_keep_partners(&self, state: PoolState)
        requires
            self.all_reciprocated(state.doors),
            self.finished(state) is Ok,
        ensures
            self.all_reciprocated(self.finished(state)->Ok_0),
    {
        let doors = self.finished(state)->Ok_0;
        let one_way = exits_of_type(state.exits, ExitType::OneWay);
        let two_way = exits_of_type(state.exits, ExitType::TwoWay);
        let first_pairs = one_way_pairs(state.leftover_one_way_entrances, one_way);
        let second_pairs = self.two_way_pairs(two_way);
        let more = first_pairs + second_pairs;
        let base = state.doors.len() + first_pairs.len();
        assert(doors == state.doors + more);
        lemma_filter_members(state.exits, of_type(ExitType::OneWay));
        assert forall|k: int|
            0 <= k < doors.len() && (#[trigger] doors[k]).1.exit_type
                == ExitType::TwoWay implies self.has_partner(doors, k) by {
            if k < state.doors.len() {
                assert(doors[k] == state.doors[k]);
                self.lemma_partner_stays(state.doors, more, k);
            } else if k < base {
                let n = k - state.doors.len();
                assert(doors[k] == first_pairs[n]);
                assert(one_way.contains(one_way[n]));
            } else {
                let n = k - base;
                let pair = n / 2;
                self.lemma_leftover_pairs_reciprocal(two_way, pair);
                assert(doors[base + 2 * pair] == second_pairs[2 * pair]);
                assert(doors[base + 2 * pair + 1] == second_pairs[2 * pair + 1]);
                if n % 2 == 0 {
                    assert(self.reciprocal(doors[k], doors[base + 2 * pair + 1]));
                } else {
                    assert(self.reciprocal(doors[k], doors[base + 2 * pair]));
                }
            }
        }
    }

    /// Every door of a shuffle that has a two-way exit has a partner among
    /// the doors, whether the two were made by one connection or pair two
    /// leftover exits: each of the two leads to the other side of the
    /// other's exit. This holds provided that the index leads from the other
    /// side of every two-way entrance back to it. The partner stands at
    /// another place; where no exit id occurs twice among the doors, its exit
    /// is another one.
    pub proof fn lemma_all_doors_reciprocated(
        &self,
        first_room: RoomView,
        all_rooms: Seq<RoomView>,
        choices: Seq<Choice>,
        doors: Seq<Door>,
    )
        requires
            self.outcome(first_room, all_rooms, choices) == Some(
                Ok::<Seq<Door>, crate::connection::ShuffleError>(doors),
            ),
            self.entrances_round_trip(pool_of(first_room, all_rooms)),
        ensures
            self.all_reciprocated(doors),
    {
        let rooms = pool_of(first_room, all_rooms);
        let start = initial_state(first_room, all_rooms);
        let holds = |state: PoolState| self.partners_kept(rooms, state);
        assert(holds(start));
        assert forall|state: PoolState, choice: Choice|
            #![trigger self.advanced(state, choice)]
            holds(state) && choice_allowed(state.exits, state.rooms, choice) && self.advanced(
                state,
                choice,
            ) is Ok implies holds(self.advanced(state, choice)->Ok_0) by {
            self.lemma_step_keeps_partners(rooms, state, choice);
        }
        self.lemma_replay_keeps(start, choices, holds);
        let state = self.replayed(start, choices)->Some_0->Ok_0;
        self.lemma_leftovers_keep_partners(state);
    }

    /// A shuffle takes no more steps than it has rooms to connect: every
    /// allowed step takes a room out of the pool, and no step follows a
    /// failure.
    pub proof fn lemma_steps_bounded(&self, start: PoolState, choices: Seq<Choice>)
        requires
            self.replayed(start, choices) is Some,
        ensures
            choices.len() <= start.rooms.len(),
            self.replayed(start, choices)->Some_0 is Ok ==> choices.len() + self.replayed(
                start,
                choices,
            )->Some_0->Ok_0.rooms.len() <= start.rooms.len(),
        decreases choices.len(),
    {
        if choices.len() > 0 {
            let before = choices.drop_last();
            self.lemma_steps_bounded(start, before);
            let state = self.replayed(start, before)->Some_0->Ok_0;
            let choice = choices.last();
            crate::sequences::lemma_filter_drops(
                state.rooms,
                room_other_than(state.rooms[choice.room].id),
                choice.room,
            );
        }
    }
}

} // verus!
