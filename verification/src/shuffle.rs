//! The shuffle itself: rooms are connected one by one until the pool is
//! empty, and what is left over is paired off at the end.

use vstd::prelude::*;
use rand::StdRng;
use crate::completeness::{
    door_exits, exit_ids, exit_ids_unique, inventory_exit_ids, rooms_exit_ids,
};
use crate::connection::{
    choice_allowed, connection_view, room_other_than, without_room, Choice, ShuffleError,
};
use crate::laws::{entrance_kinds_disjoint, kinds_never_mixed, kinds_respected, pool_of};
use crate::model::{append_items, copy_items, room_views, Destination, Door, Exit, ExitType, Room, RoomView};
use crate::reachability::{all_reachable, room_ids_unique};
use crate::selection::{exits_of_type, none_selectable};
use crate::sequences::lemma_filter_drops;
use crate::shuffler::Shuffler;

verus! {

/// What the shuffle carries from step to step.
#[verifier::ext_equal]
pub struct PoolState {
    /// The exits that wait for an entrance.
    pub exits: Seq<Exit>,
    /// The rooms that are not connected yet.
    pub rooms: Seq<RoomView>,
    /// The one-way entrances of connected rooms that no exit leads to yet.
    pub leftover_one_way_entrances: Seq<Destination>,
    /// The doors resolved so far.
    pub doors: Seq<Door>,
}

/// The state before the first step: the exits of the first room wait, and
/// every room with another id than the first room's is to be connected.
pub open spec fn initial_state(first_room: RoomView, all_rooms: Seq<RoomView>) -> PoolState {
    PoolState {
        exits: first_room.one_way_exits + first_room.two_way_exits,
        rooms: without_room(all_rooms, first_room.id),
        leftover_one_way_entrances: Seq::empty(),
        doors: Seq::empty(),
    }
}

/// The doors that pair one-way entrances and one-way exits place by place.
pub open spec fn one_way_pairs(entrances: Seq<Destination>, exits: Seq<Exit>) -> Seq<Door> {
    Seq::new(exits.len(), |i: int| Door(entrances[i], exits[i]))
}

/// The result of a shuffle as the specifications see it.
pub open spec fn doors_view(result: Result<Vec<Door>, ShuffleError>) -> Result<
    Seq<Door>,
    ShuffleError,
> {
    match result {
        Ok(doors) => Ok(doors@),
        Err(error) => Err(error),
    }
}

impl Shuffler {
    /// The state after a step with the given choice: the connected room has
    /// left the pool, and its doors and unused one-way entrances are added
    /// behind those gathered before.
    pub open spec fn advanced(&self, state: PoolState, choice: Choice) -> Result<
        PoolState,
        ShuffleError,
    > {
        match self.connection(state.exits, state.rooms, choice) {
            Ok(made) => Ok(
                PoolState {
                    exits: made.exits,
                    rooms: without_room(state.rooms, made.room_id),
                    leftover_one_way_entrances: state.leftover_one_way_entrances
                        + made.leftover_one_way_entrances,
                    doors: state.doors + made.doors,
                },
            ),
            Err(error) => Err(error),
        }
    }

    /// Where the steps with the given choices lead from `start`: a state, or
    /// the failure of the last step. There is no answer when a choice is not
    /// allowed where it is made, or follows a failure.
    pub open spec fn replayed(&self, start: PoolState, choices: Seq<Choice>) -> Option<
        Result<PoolState, ShuffleError>,
    >
        decreases choices.len(),
    {
        if choices.len() == 0 {
            Some(Ok(start))
        } else {
            match self.replayed(start, choices.drop_last()) {
                Some(Ok(state)) => if choice_allowed(state.exits, state.rooms, choices.last()) {
                    Some(self.advanced(state, choices.last()))
                } else {
                    None
                },
                _ => None,
            }
        }
    }

    /// Whether the index holds the other side of each of the exits.
    pub open spec fn all_have_other_side(&self, exits: Seq<Exit>) -> bool {
        forall|k: int|
            0 <= k < exits.len() ==> self.corresponding_destination(#[trigger] exits[k]) is Some
    }

    /// The doors that pair an even number of two-way exits: each exit of the
    /// first half leads to the other side of the exit at the same place of
    /// the second half, and that exit leads to the other side of the first.
    pub open spec fn two_way_pairs(&self, exits: Seq<Exit>) -> Seq<Door> {
        let half = exits.len() / 2;
        Seq::new(
            2 * half,
            |k: int|
                if k % 2 == 0 {
                    Door(self.corresponding_destination(exits[half + k / 2])->0, exits[k / 2])
                } else {
                    Door(self.corresponding_destination(exits[k / 2])->0, exits[half + k / 2])
                },
        )
    }

    /// The doors that resolve what is left over once every room is
    /// connected. The one-way exits are paired with the leftover one-way
    /// entrances place by place, and must be as many. The two-way exits are
    /// paired among themselves, and must be even in number.
    pub open spec fn leftover_doors(
        &self,
        exits: Seq<Exit>,
        leftover_one_way_entrances: Seq<Destination>,
    ) -> Result<Seq<Door>, ShuffleError> {
        let one_way = exits_of_type(exits, ExitType::OneWay);
        let two_way = exits_of_type(exits, ExitType::TwoWay);
        if one_way.len() != leftover_one_way_entrances.len() {
            Err(ShuffleError::LeftoverCountMismatch)
        } else if two_way.len() % 2 != 0 {
            Err(ShuffleError::OddTwoWayExits)
        } else if !self.all_have_other_side(two_way) {
            Err(ShuffleError::MissingConnection)
        } else {
            Ok(one_way_pairs(leftover_one_way_entrances, one_way) + self.two_way_pairs(two_way))
        }
    }

    /// The doors of a shuffle that has connected every room.
    pub open spec fn finished(&self, state: PoolState) -> Result<Seq<Door>, ShuffleError> {
        match self.leftover_doors(state.exits, state.leftover_one_way_entrances) {
            Ok(more) => Ok(state.doors + more),
            Err(error) => Err(error),
        }
    }

    /// What a shuffle that makes the given choices returns. There is no
    /// answer when the choices are not those of a whole run: when one of them
    /// is not allowed where it is made, or when after the last of them rooms
    /// are left of which one is selectable.
    pub open spec fn outcome(
        &self,
        first_room: RoomView,
        all_rooms: Seq<RoomView>,
        choices: Seq<Choice>,
    ) -> Option<Result<Seq<Door>, ShuffleError>> {
        match self.replayed(initial_state(first_room, all_rooms), choices) {
            Some(Ok(state)) => if state.rooms.len() == 0 {
                Some(self.finished(state))
            } else if none_selectable(state.exits, state.rooms) {
                Some(Err(ShuffleError::Deadlock))
            } else {
                None
            },
            Some(Err(error)) => Some(Err(error)),
            None => None,
        }
    }

    /// Resolves what is left over once every room is connected.
    pub fn resolve_leftovers(&self, exits: &[Exit], leftover_one_way_entrances: &[Destination]) -> (r:
        Result<Vec<Door>, ShuffleError>)
        ensures
            doors_view(r) == self.leftover_doors(exits@, leftover_one_way_entrances@),
    {
        let one_way_exits = Self::get_exits_of_type(exits, ExitType::OneWay);
        let two_way_exits = Self::get_exits_of_type(exits, ExitType::TwoWay);
        if one_way_exits.len() != leftover_one_way_entrances.len() {
            return Err(ShuffleError::LeftoverCountMismatch);
        }
        if two_way_exits.len() % 2 != 0 {
            return Err(ShuffleError::OddTwoWayExits);
        }
        let ghost one_way = one_way_pairs(leftover_one_way_entrances@, one_way_exits@);
        let ghost two_way = self.two_way_pairs(two_way_exits@);
        let mut doors: Vec<Door> = Vec::new();
        let mut index: usize = 0;
        while index < one_way_exits.len()
            invariant
                index <= one_way_exits@.len(),
                one_way_exits@.len() == leftover_one_way_entrances@.len(),
                one_way == one_way_pairs(leftover_one_way_entrances@, one_way_exits@),
                doors@ == one_way.take(index as int),
            decreases one_way_exits@.len() - index,
        {
            doors.push(Door(leftover_one_way_entrances[index], one_way_exits[index]));
            index += 1;
            assert(doors@ =~= one_way.take(index as int));
        }
        assert(one_way.take(one_way.len() as int) =~= one_way);
        let split_index: usize = two_way_exits.len() / 2;
        let mut index: usize = 0;
        while index < split_index
            invariant
                index <= split_index,
                split_index == two_way_exits@.len() / 2,
                two_way_exits@.len() == 2 * split_index,
                two_way_exits@.len() <= usize::MAX,
                one_way_exits@ == exits_of_type(exits@, ExitType::OneWay),
                two_way_exits@ == exits_of_type(exits@, ExitType::TwoWay),
                one_way_exits@.len() == leftover_one_way_entrances@.len(),
                two_way == self.two_way_pairs(two_way_exits@),
                doors@ == one_way + two_way.take(2 * index),
                forall|k: int|
                    0 <= k < index ==> self.corresponding_destination(
                        #[trigger] two_way_exits@[k],
                    ) is Some,
                forall|k: int|
                    split_index <= k < split_index + index ==> self.corresponding_destination(
                        #[trigger] two_way_exits@[k],
                    ) is Some,
            decreases split_index - index,
        {
            let exit1 = two_way_exits[index];
            let exit2 = two_way_exits[split_index + index];
            let exit1_entrance = match self.find_corresponding_destination(exit1) {
                Some(destination) => destination,
                None => {
                    assert(self.corresponding_destination(two_way_exits@[index as int]) is None);
                    return Err(ShuffleError::MissingConnection);
                },
            };
            let exit2_entrance = match self.find_corresponding_destination(exit2) {
                Some(destination) => destination,
                None => {
                    assert(self.corresponding_destination(
                        two_way_exits@[split_index + index],
                    ) is None);
                    return Err(ShuffleError::MissingConnection);
                },
            };
            doors.push(Door(exit2_entrance, exit1));
            doors.push(Door(exit1_entrance, exit2));
            index += 1;
            assert(two_way[2 * index - 2] == Door(exit2_entrance, exit1));
            assert(two_way[2 * index - 1] == Door(exit1_entrance, exit2));
            assert(doors@ =~= one_way + two_way.take(2 * index));
        }
        assert(two_way.take(two_way.len() as int) =~= two_way);
        Ok(doors)
    }

    /// Draws a new wiring for the map. The exits of `first_room` are the
    /// first to wait; the rooms of `all_rooms` with another id than the
    /// first room's are connected one at a time, each to an exit that waits,
    /// until none is left; then the exits that still wait are paired with
    /// the one-way entrances that no exit leads to and among themselves.
    ///
    /// The result is what [`Shuffler::outcome`] gives for the choices that
    /// were drawn from `rng`, of which there are no more than rooms to
    /// connect: the doors of the new wiring, or the reason why there is
    /// none. Of the doors of a new wiring the following holds, whichever
    /// choices were drawn, for an inventory and an index that fit together:
    /// every exit of the first room and of the rooms that were connected is
    /// the exit of exactly one door, and where no two rooms have the same
    /// id these are all the exits of the inventory;
    /// every room can be walked to from the first room;
    /// doors with a one-way exit, and no others, lead to one-way entrances;
    /// every door with a two-way exit has a partner that leads back.
    pub fn shuffle_rooms(&self, first_room: Room, all_rooms: &[Room], rng: &mut StdRng) -> (r: Result<
        Vec<Door>,
        ShuffleError,
    >)
        ensures
            exists|choices: Seq<Choice>|
                {
                    let pool = pool_of(first_room@, room_views(all_rooms@));
                    let start = initial_state(first_room@, room_views(all_rooms@));
                    &&& choices.len() <= pool.len()
                    &&& #[trigger] self.outcome(first_room@, room_views(all_rooms@), choices)
                        == Some(doors_view(r))
                    &&& r is Ok && exit_ids_unique(first_room@, pool) && self.back_exits_at_home(
                        pool,
                    ) ==> exit_ids(door_exits(r->Ok_0@)) == exit_ids(first_room@.exits()).add(
                        rooms_exit_ids(self.connected_rooms(start, choices)),
                    ) && forall|id: usize| #[trigger]
                        exit_ids(door_exits(r->Ok_0@)).count(id) <= 1
                },
            r matches Ok(doors) ==> {
                let pool = pool_of(first_room@, room_views(all_rooms@));
                &&& exit_ids_unique(first_room@, pool) && room_ids_unique(pool)
                    && self.back_exits_at_home(pool) ==> exit_ids(door_exits(doors@))
                    == inventory_exit_ids(first_room@, pool)
                &&& room_ids_unique(pool) ==> all_reachable(first_room@, pool, doors@)
                &&& entrance_kinds_disjoint(pool) && self.keeps_kinds(first_room@, pool)
                    ==> kinds_respected(pool, doors@) && kinds_never_mixed(pool, doors@)
                &&& self.entrances_round_trip(pool) ==> self.all_reciprocated(doors@)
            },
    {
        let r = self.run(&first_room, all_rooms, rng);
        proof {
            let rooms = room_views(all_rooms@);
            let pool = pool_of(first_room@, rooms);
            let choices = choose|choices: Seq<Choice>| #[trigger]
                self.outcome(first_room@, rooms, choices) == Some(doors_view(r));
            self.lemma_steps_bounded(initial_state(first_room@, rooms), choices);
            if r is Ok && exit_ids_unique(first_room@, pool) && self.back_exits_at_home(pool) {
                self.lemma_every_introduced_exit_resolved_once(
                    first_room@,
                    rooms,
                    choices,
                    r->Ok_0@,
                );
            }
            assert(choices.len() <= pool.len() && self.outcome(first_room@, rooms, choices)
                == Some(doors_view(r)));
            if r is Ok {
                let doors = r->Ok_0@;
                if exit_ids_unique(first_room@, pool) && room_ids_unique(pool)
                    && self.back_exits_at_home(pool) {
                    self.lemma_every_exit_resolved_once(first_room@, rooms, choices, doors);
                }
                if room_ids_unique(pool) {
                    self.lemma_all_rooms_reachable(first_room@, rooms, choices, doors);
                }
                if entrance_kinds_disjoint(pool) && self.keeps_kinds(first_room@, pool) {
                    self.lemma_kinds_respected(first_room@, rooms, choices, doors);
                }
                if self.entrances_round_trip(pool) {
                    self.lemma_all_doors_reciprocated(first_room@, rooms, choices, doors);
                }
            }
        }
        r
    }

    fn run(&self, first_room: &Room, all_rooms: &[Room], rng: &mut StdRng) -> (r: Result<
        Vec<Door>,
        ShuffleError,
    >)
        ensures
            exists|choices: Seq<Choice>| #[trigger]
                self.outcome(first_room@, room_views(all_rooms@), choices) == Some(doors_view(r)),
    {
        let mut unselected_rooms = Self::rooms_without(all_rooms, first_room.id);
        let mut exits = copy_items(first_room.one_way_exits.as_slice());
        append_items(&mut exits, first_room.two_way_exits.as_slice());
        let mut leftover_one_way_entrances: Vec<Destination> = Vec::new();
        let mut doors: Vec<Door> = Vec::new();
        let ghost start = initial_state(first_room@, room_views(all_rooms@));
        let ghost mut choices: Seq<Choice> = Seq::empty();
        assert(start =~= PoolState {
            exits: exits@,
            rooms: room_views(unselected_rooms@),
            leftover_one_way_entrances: leftover_one_way_entrances@,
            doors: doors@,
        });
        while unselected_rooms.len() > 0
            invariant
                start == initial_state(first_room@, room_views(all_rooms@)),
                self.replayed(start, choices) == Some(
                    Ok::<PoolState, ShuffleError>(
                        PoolState {
                            exits: exits@,
                            rooms: room_views(unselected_rooms@),
                            leftover_one_way_entrances: leftover_one_way_entrances@,
                            doors: doors@,
                        },
                    ),
                ),
            decreases unselected_rooms@.len(),
        {
            let ghost state = PoolState {
                exits: exits@,
                rooms: room_views(unselected_rooms@),
                leftover_one_way_entrances: leftover_one_way_entrances@,
                doors: doors@,
            };
            match self.connect_new_room(exits.as_slice(), unselected_rooms.as_slice(), rng) {
                Err(error) => {
                    proof {
                        if none_selectable(state.exits, state.rooms) {
                            assert(self.outcome(first_room@, room_views(all_rooms@), choices)
                                == Some(Err::<Seq<Door>, ShuffleError>(error)));
                        } else {
                            let choice = choose|choice: Choice| #[trigger]
                                choice_allowed(state.exits, state.rooms, choice)
                                    && connection_view(Err(error)) == self.connection(
                                    state.exits,
                                    state.rooms,
                                    choice,
                                );
                            let longer = choices.push(choice);
                            assert(longer.drop_last() =~= choices);
                            assert(self.replayed(start, longer) == Some(
                                Err::<PoolState, ShuffleError>(error),
                            ));
                            assert(self.outcome(first_room@, room_views(all_rooms@), longer)
                                == Some(Err::<Seq<Door>, ShuffleError>(error)));
                        }
                    }
                    return Err(error);
                },
                Ok(made) => {
                    proof {
                        let choice = choose|choice: Choice| #[trigger]
                            choice_allowed(state.exits, state.rooms, choice) && connection_view(
                                Ok(made),
                            ) == self.connection(state.exits, state.rooms, choice);
                        let longer = choices.push(choice);
                        assert(longer.drop_last() =~= choices);
                        assert(self.replayed(start, longer) == Some(self.advanced(state, choice)));
                        assert(!room_other_than(made.room_id)(state.rooms[choice.room]));
                        lemma_filter_drops(state.rooms, room_other_than(made.room_id), choice.room);
                        choices = longer;
                    }
                    let remaining_rooms = Self::rooms_without(
                        unselected_rooms.as_slice(),
                        made.room_id,
                    );
                    unselected_rooms = remaining_rooms;
                    exits = made.exits;
                    append_items(&mut doors, made.doors.as_slice());
                    append_items(
                        &mut leftover_one_way_entrances,
                        made.leftover_one_way_entrances.as_slice(),
                    );
                },
            }
        }
        let ghost state = PoolState {
            exits: exits@,
            rooms: room_views(unselected_rooms@),
            leftover_one_way_entrances: leftover_one_way_entrances@,
            doors: doors@,
        };
        match self.resolve_leftovers(exits.as_slice(), leftover_one_way_entrances.as_slice()) {
            Ok(more) => {
                append_items(&mut doors, more.as_slice());
                assert(self.outcome(first_room@, room_views(all_rooms@), choices) == Some(
                    Ok::<Seq<Door>, ShuffleError>(doors@),
                ));
                Ok(doors)
            },
            Err(error) => {
                assert(self.outcome(first_room@, room_views(all_rooms@), choices) == Some(
                    Err::<Seq<Door>, ShuffleError>(error),
                ));
                Err(error)
            },
        }
    }
}

} // verus!
