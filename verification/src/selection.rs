//! Which rooms of the pool may be connected next.
//!
//! A room is selectable when one of its entrances matches an exit that is
//! waiting in the pool, and when connecting it would leave every other room
//! of the pool a way to be connected later: an exit of the kind of one of
//! its entrances would wait, or a third room could supply one.

use vstd::prelude::*;
use crate::model::{room_views, Exit, ExitType, Room, RoomView};
use crate::sequences::lemma_filter_take_step;
use crate::shuffler::Shuffler;

verus! {

/// The test for an exit of one kind.
pub open spec fn of_type(kind: ExitType) -> spec_fn(Exit) -> bool {
    |exit: Exit| exit.exit_type == kind
}

/// The exits of one kind, in order.
pub open spec fn exits_of_type(exits: Seq<Exit>, kind: ExitType) -> Seq<Exit> {
    exits.filter(of_type(kind))
}

/// Whether an exit of the kind is among `exits`.
pub open spec fn exit_type_present(exits: Seq<Exit>, kind: ExitType) -> bool {
    exists|i: int| 0 <= i < exits.len() && (#[trigger] exits[i]).exit_type == kind
}

/// Whether the room has an entrance of a kind of which an exit is waiting.
pub open spec fn has_matching_entrance(room: RoomView, exits: Seq<Exit>) -> bool {
    ||| room.one_way_entrances.len() > 0 && exit_type_present(exits, ExitType::OneWay)
    ||| room.two_way_entrances.len() > 0 && exit_type_present(exits, ExitType::TwoWay)
}

/// Whether the room has an entrance of either kind.
pub open spec fn can_be_entered(room: RoomView) -> bool {
    room.one_way_entrances.len() > 0 || room.two_way_entrances.len() > 0
}

/// Whether a room with neither of the two ids can be entered one-way and
/// left two-way, and so can supply a two-way exit later.
pub open spec fn one_to_two_room_exists(
    rooms: Seq<RoomView>,
    judged_room_id: usize,
    selected_room_id: usize,
) -> bool {
    exists|k: int|
        0 <= k < rooms.len() && (#[trigger] rooms[k]).id != judged_room_id && rooms[k].id
            != selected_room_id && rooms[k].one_way_entrances.len() > 0
            && rooms[k].two_way_exits.len() > 0
}

/// Whether a room with neither of the two ids can be entered two-way and
/// left one-way, and so can supply a one-way exit later.
pub open spec fn two_to_one_room_exists(
    rooms: Seq<RoomView>,
    judged_room_id: usize,
    selected_room_id: usize,
) -> bool {
    exists|k: int|
        0 <= k < rooms.len() && (#[trigger] rooms[k]).id != judged_room_id && rooms[k].id
            != selected_room_id && rooms[k].two_way_entrances.len() > 0
            && rooms[k].one_way_exits.len() > 0
}

/// One less, but never less than none.
pub open spec fn decremented(count: nat) -> nat {
    if count > 0 {
        (count - 1) as nat
    } else {
        0
    }
}

/// How many two-way exits the room brings to the pool: all of them when it
/// can be entered one-way, else one less, since one is then used up as the
/// entrance.
pub open spec fn two_way_exits_brought(room: RoomView) -> nat {
    if room.one_way_entrances.len() > 0 {
        room.two_way_exits.len()
    } else {
        decremented(room.two_way_exits.len())
    }
}

/// How many one-way and how many two-way exits would wait in the pool once
/// the room is connected: for each kind of entrance that the room has, one
/// waiting exit of that kind is taken to be used up, and the room's own exits
/// are added.
pub open spec fn new_exit_counts(exits: Seq<Exit>, room: RoomView) -> (nat, nat) {
    let one_way = exits_of_type(exits, ExitType::OneWay).len();
    let two_way = exits_of_type(exits, ExitType::TwoWay).len();
    (
        (if room.one_way_entrances.len() > 0 {
            decremented(one_way)
        } else {
            one_way
        }) + room.one_way_exits.len(),
        (if room.two_way_entrances.len() > 0 {
            decremented(two_way)
        } else {
            two_way
        }) + two_way_exits_brought(room),
    )
}

/// A count as a machine word holds it: the largest word where it is larger.
pub open spec fn clamped(count: nat) -> usize {
    if count > usize::MAX {
        usize::MAX
    } else {
        count as usize
    }
}

/// Whether a room could still be connected when the pool holds the given
/// numbers of exits: the pool holds an exit of the kind of one of the room's
/// entrances, or another room that is still to be connected can supply one.
pub open spec fn can_still_connect(
    room: RoomView,
    new_one_way_exits: nat,
    new_two_way_exits: nat,
    one_to_two_exists: bool,
    two_to_one_exists: bool,
) -> bool {
    ||| room.one_way_entrances.len() > 0 && (new_one_way_exits > 0 || two_to_one_exists)
    ||| room.two_way_entrances.len() > 0 && (new_two_way_exits > 0 || one_to_two_exists)
}

/// Whether a room of the pool would still have a way to be connected once
/// `selected` is connected: the pool then holds an exit of the kind of one
/// of its entrances, or a room other than itself and other than `selected`
/// can supply one later.
pub open spec fn stays_connectable(
    judged: RoomView,
    selected: RoomView,
    exits: Seq<Exit>,
    rooms: Seq<RoomView>,
) -> bool {
    can_still_connect(
        judged,
        new_exit_counts(exits, selected).0,
        new_exit_counts(exits, selected).1,
        one_to_two_room_exists(rooms, judged.id, selected.id),
        two_to_one_room_exists(rooms, judged.id, selected.id),
    )
}

/// Whether `room` can be connected at all and connecting it leaves every
/// other room of the pool a way to be connected later.
pub open spec fn does_not_block(room: RoomView, exits: Seq<Exit>, rooms: Seq<RoomView>) -> bool {
    &&& can_be_entered(room)
    &&& forall|i: int|
        0 <= i < rooms.len() && (#[trigger] rooms[i]).id != room.id ==> stays_connectable(
            rooms[i],
            room,
            exits,
            rooms,
        )
}

/// Whether `room` may be connected next.
pub open spec fn selectable(room: RoomView, exits: Seq<Exit>, rooms: Seq<RoomView>) -> bool {
    has_matching_entrance(room, exits) && does_not_block(room, exits, rooms)
}

/// Whether no room of the pool may be connected next.
pub open spec fn none_selectable(exits: Seq<Exit>, rooms: Seq<RoomView>) -> bool {
    forall|i: int| 0 <= i < rooms.len() ==> !selectable(#[trigger] rooms[i], exits, rooms)
}

impl Shuffler {
    /// Whether an exit of the kind is among `exits`.
    pub fn exit_type_exists(exits: &[Exit], exit_type: ExitType) -> (found: bool)
        ensures
            found == exit_type_present(exits@, exit_type),
    {
        let mut i: usize = 0;
        while i < exits.len()
            invariant
                i <= exits@.len(),
                forall|j: int| 0 <= j < i ==> (#[trigger] exits@[j]).exit_type != exit_type,
            decreases exits@.len() - i,
        {
            if exits[i].exit_type == exit_type {
                return true;
            }
            i += 1;
        }
        false
    }

    /// The exits of one kind, in order.
    pub fn get_exits_of_type(exits: &[Exit], exit_type: ExitType) -> (found: Vec<Exit>)
        ensures
            found@ == exits_of_type(exits@, exit_type),
    {
        let mut found: Vec<Exit> = Vec::new();
        let mut i: usize = 0;
        proof {
            reveal(Seq::filter);
        }
        while i < exits.len()
            invariant
                i <= exits@.len(),
                found@ == exits_of_type(exits@.take(i as int), exit_type),
            decreases exits@.len() - i,
        {
            proof {
                lemma_filter_take_step(exits@, of_type(exit_type), i as int);
            }
            if exits[i].exit_type == exit_type {
                found.push(exits[i]);
            }
            i += 1;
        }
        assert(exits@.take(exits@.len() as int) =~= exits@);
        found
    }

    fn count_exits_of_type(exits: &[Exit], exit_type: ExitType) -> (count: usize)
        ensures
            count == exits_of_type(exits@, exit_type).len(),
    {
        let mut count: usize = 0;
        let mut i: usize = 0;
        proof {
            reveal(Seq::filter);
        }
        while i < exits.len()
            invariant
                i <= exits@.len(),
                count <= i,
                count == exits_of_type(exits@.take(i as int), exit_type).len(),
            decreases exits@.len() - i,
        {
            proof {
                lemma_filter_take_step(exits@, of_type(exit_type), i as int);
            }
            if exits[i].exit_type == exit_type {
                count += 1;
            }
            i += 1;
        }
        assert(exits@.take(exits@.len() as int) =~= exits@);
        count
    }

    /// Whether the room has an entrance of a kind of which an exit is
    /// waiting.
    pub fn room_has_matching_entrance(room: &Room, exits: &[Exit]) -> (matching: bool)
        ensures
            matching == has_matching_entrance(room@, exits@),
    {
        let one_way_entrance_exists = room.one_way_entrances.len() > 0;
        let one_way_exit_exists = Self::exit_type_exists(exits, ExitType::OneWay);
        let two_way_entrance_exists = room.two_way_entrances.len() > 0;
        let two_way_exit_exists = Self::exit_type_exists(exits, ExitType::TwoWay);
        (one_way_entrance_exists && one_way_exit_exists) || (two_way_entrance_exists
            && two_way_exit_exists)
    }

    /// Whether a room with neither of the two ids can be entered one-way
    /// and left two-way.
    pub fn check_opposing_exit_room_exists_one_to_two(
        unselected_rooms: &[Room],
        judged_room_id: usize,
        selected_room_id: usize,
    ) -> (found: bool)
        ensures
            found == one_to_two_room_exists(
                room_views(unselected_rooms@),
                judged_room_id,
                selected_room_id,
            ),
    {
        let ghost rooms = room_views(unselected_rooms@);
        let mut i: usize = 0;
        while i < unselected_rooms.len()
            invariant
                i <= unselected_rooms@.len(),
                rooms == room_views(unselected_rooms@),
                forall|j: int|
                    0 <= j < i ==> !((#[trigger] rooms[j]).id != judged_room_id && rooms[j].id
                        != selected_room_id && rooms[j].one_way_entrances.len() > 0
                        && rooms[j].two_way_exits.len() > 0),
            decreases unselected_rooms@.len() - i,
        {
            let room = &unselected_rooms[i];
            assert(rooms[i as int] == room@);
            if room.id != judged_room_id && room.id != selected_room_id
                && room.one_way_entrances.len() > 0 && room.two_way_exits.len() > 0 {
                return true;
            }
            i += 1;
        }
        false
    }

    /// Whether a room with neither of the two ids can be entered two-way
    /// and left one-way.
    pub fn check_opposing_exit_room_exists_two_to_one(
        unselected_rooms: &[Room],
        judged_room_id: usize,
        selected_room_id: usize,
    ) -> (found: bool)
        ensures
            found == two_to_one_room_exists(
                room_views(unselected_rooms@),
                judged_room_id,
                selected_room_id,
            ),
    {
        let ghost rooms = room_views(unselected_rooms@);
        let mut i: usize = 0;
        while i < unselected_rooms.len()
            invariant
                i <= unselected_rooms@.len(),
                rooms == room_views(unselected_rooms@),
                forall|j: int|
                    0 <= j < i ==> !((#[trigger] rooms[j]).id != judged_room_id && rooms[j].id
                        != selected_room_id && rooms[j].two_way_entrances.len() > 0
                        && rooms[j].one_way_exits.len() > 0),
            decreases unselected_rooms@.len() - i,
        {
            let room = &unselected_rooms[i];
            assert(rooms[i as int] == room@);
            if room.id != judged_room_id && room.id != selected_room_id
                && room.two_way_entrances.len() > 0 && room.one_way_exits.len() > 0 {
                return true;
            }
            i += 1;
        }
        false
    }

    /// One less, but never less than none.
    pub fn decrement_count(count: usize) -> (less: usize)
        ensures
            less == decremented(count as nat),
    {
        if count > 1 {
            count - 1
        } else {
            0
        }
    }

    /// How many two-way exits the room brings to the pool.
    pub fn calculate_two_way_exit_count(room: &Room) -> (count: usize)
        ensures
            count == two_way_exits_brought(room@),
    {
        if room.one_way_entrances.len() > 0 {
            room.two_way_exits.len()
        } else {
            Self::decrement_count(room.two_way_exits.len())
        }
    }

    /// How many one-way and how many two-way exits would wait in the pool
    /// once the room is connected, which takes a room that can be entered. A
    /// count that no machine word can hold comes back as the largest word.
    pub fn count_new_exits(exits: &[Exit], room: &Room) -> (counts: (usize, usize))
        requires
            can_be_entered(room@),
        ensures
            counts.0 == clamped(new_exit_counts(exits@, room@).0),
            counts.1 == clamped(new_exit_counts(exits@, room@).1),
    {
        let selected_one_way_exit_count = Self::count_exits_of_type(exits, ExitType::OneWay);
        let selected_two_way_exit_count = Self::count_exits_of_type(exits, ExitType::TwoWay);
        let has_one_way_entrance = room.one_way_entrances.len() > 0;
        let has_two_way_entrance = room.two_way_entrances.len() > 0;
        let room_one_way_exit_count = room.one_way_exits.len();
        let room_two_way_exit_count = Self::calculate_two_way_exit_count(room);
        let one_way_left = if has_one_way_entrance {
            Self::decrement_count(selected_one_way_exit_count)
        } else {
            selected_one_way_exit_count
        };
        let two_way_left = if has_two_way_entrance {
            Self::decrement_count(selected_two_way_exit_count)
        } else {
            selected_two_way_exit_count
        };
        (
            one_way_left.saturating_add(room_one_way_exit_count),
            two_way_left.saturating_add(room_two_way_exit_count),
        )
    }

    /// Whether a room that can be entered could still be connected when the
    /// pool holds the given numbers of exits.
    pub fn validate_room(
        room_to_validate: &Room,
        new_one_way_exits: usize,
        new_two_way_exits: usize,
        room_with_opposing_connections_one_to_two_exists: bool,
        room_with_opposing_connections_two_to_one_exists: bool,
    ) -> (valid: bool)
        requires
            can_be_entered(room_to_validate@),
        ensures
            valid == can_still_connect(
                room_to_validate@,
                new_one_way_exits as nat,
                new_two_way_exits as nat,
                room_with_opposing_connections_one_to_two_exists,
                room_with_opposing_connections_two_to_one_exists,
            ),
    {
        let has_one_way_entrance = room_to_validate.one_way_entrances.len() > 0;
        let has_two_way_entrance = room_to_validate.two_way_entrances.len() > 0;
        (has_one_way_entrance && (new_one_way_exits > 0
            || room_with_opposing_connections_two_to_one_exists)) || (has_two_way_entrance && (
        new_two_way_exits > 0 || room_with_opposing_connections_one_to_two_exists))
    }

    /// Whether `room` can be connected at all and connecting it leaves every
    /// other room of the pool a way to be connected later. Each other room is
    /// judged by the exits that would then wait and by the rooms, other than
    /// itself and `room`, that could supply the kind of exit it needs. A
    /// room that cannot be entered has no such way.
    pub fn room_does_not_block_full_access(
        room: &Room,
        exits: &[Exit],
        unselected_rooms: &[Room],
    ) -> (free: bool)
        ensures
            free == does_not_block(room@, exits@, room_views(unselected_rooms@)),
    {
        if room.one_way_entrances.len() == 0 && room.two_way_entrances.len() == 0 {
            return false;
        }
        let (new_one_way_exits, new_two_way_exits) = Self::count_new_exits(exits, room);
        let ghost rooms = room_views(unselected_rooms@);
        let ghost counts = new_exit_counts(exits@, room@);
        let mut i: usize = 0;
        while i < unselected_rooms.len()
            invariant
                i <= unselected_rooms@.len(),
                rooms == room_views(unselected_rooms@),
                can_be_entered(room@),
                counts == new_exit_counts(exits@, room@),
                new_one_way_exits == clamped(counts.0),
                new_two_way_exits == clamped(counts.1),
                forall|j: int|
                    0 <= j < i && (#[trigger] rooms[j]).id != room@.id ==> stays_connectable(
                        rooms[j],
                        room@,
                        exits@,
                        rooms,
                    ),
            decreases unselected_rooms@.len() - i,
        {
            let other = &unselected_rooms[i];
            assert(rooms[i as int] == other@);
            if other.id != room.id {
                if other.one_way_entrances.len() == 0 && other.two_way_entrances.len() == 0 {
                    return false;
                }
                let one_to_two = Self::check_opposing_exit_room_exists_one_to_two(
                    unselected_rooms,
                    other.id,
                    room.id,
                );
                let two_to_one = Self::check_opposing_exit_room_exists_two_to_one(
                    unselected_rooms,
                    other.id,
                    room.id,
                );
                if !Self::validate_room(
                    other,
                    new_one_way_exits,
                    new_two_way_exits,
                    one_to_two,
                    two_to_one,
                ) {
                    return false;
                }
            }
            i += 1;
        }
        true
    }

    /// The places in the pool of the rooms that may be connected next, in
    /// rising order.
    pub fn find_selectable_rooms(exits: &[Exit], unselected_rooms: &[Room]) -> (places: Vec<usize>)
        ensures
            forall|k: int|
                0 <= k < places@.len() ==> (#[trigger] places@[k]) < unselected_rooms@.len()
                    && selectable(
                    room_views(unselected_rooms@)[places@[k] as int],
                    exits@,
                    room_views(unselected_rooms@),
                ),
            forall|k: int, l: int| 0 <= k < l < places@.len() ==> places@[k] < places@[l],
            forall|i: int|
                0 <= i < unselected_rooms@.len() && selectable(
                    #[trigger] room_views(unselected_rooms@)[i],
                    exits@,
                    room_views(unselected_rooms@),
                ) ==> places@.contains(i as usize),
    {
        let ghost rooms = room_views(unselected_rooms@);
        let mut places: Vec<usize> = Vec::new();
        let mut i: usize = 0;
        while i < unselected_rooms.len()
            invariant
                i <= unselected_rooms@.len(),
                rooms == room_views(unselected_rooms@),
                forall|k: int|
                    0 <= k < places@.len() ==> (#[trigger] places@[k]) < i && selectable(
                        rooms[places@[k] as int],
                        exits@,
                        rooms,
                    ),
                forall|k: int, l: int| 0 <= k < l < places@.len() ==> places@[k] < places@[l],
                forall|j: int|
                    0 <= j < i && selectable(#[trigger] rooms[j], exits@, rooms)
                        ==> places@.contains(j as usize),
            decreases unselected_rooms@.len() - i,
        {
            let room = &unselected_rooms[i];
            assert(rooms[i as int] == room@);
            if Self::room_has_matching_entrance(room, exits)
                && Self::room_does_not_block_full_access(room, exits, unselected_rooms) {
                let ghost before = places@;
                places.push(i);
                assert(places@[before.len() as int] == i);
                assert forall|j: int|
                    0 <= j < i + 1 && selectable(
                        #[trigger] rooms[j],
                        exits@,
                        rooms,
                    ) implies places@.contains(j as usize) by {
                    if j < i {
                        let k = choose|k: int| 0 <= k < before.len() && before[k] == j as usize;
                        assert(places@[k] == j as usize);
                    }
                }
            }
            i += 1;
        }
        places
    }
}

} // verus!
