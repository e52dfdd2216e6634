//! Connecting one room of the pool to an exit that is waiting.

use vstd::prelude::*;
use rand::StdRng;
use crate::model::{append_items, copy_items, room_views, Destination, Door, Exit, ExitType, Room, RoomView};
use crate::random::pick;
use crate::selection::{
    exit_type_present, exits_of_type, has_matching_entrance, none_selectable, of_type, selectable,
};
use crate::sequences::{lemma_filter_members, lemma_filter_nothing, lemma_filter_take_step};
use crate::shuffler::Shuffler;

verus! {

/// Why a shuffle could not be completed.
#[derive(Copy, Clone, PartialEq, Eq, Debug, Structural)]
pub enum ShuffleError {
    /// Rooms are left in the pool and none of them may be connected.
    Deadlock,
    /// The connectivity index does not hold the other side of a two-way
    /// door.
    MissingConnection,
    /// The one-way exits left over at the end are not as many as the one-way
    /// entrances left over.
    LeftoverCountMismatch,
    /// The two-way exits left over at the end are odd in number.
    OddTwoWayExits,
}

/// The test for an exit with another id.
pub open spec fn exit_other_than(id: usize) -> spec_fn(Exit) -> bool {
    |exit: Exit| exit.id != id
}

/// The exits whose id is not `id`, in order.
pub open spec fn without_exit(exits: Seq<Exit>, id: usize) -> Seq<Exit> {
    exits.filter(exit_other_than(id))
}

/// The test for a destination with another id.
pub open spec fn destination_other_than(id: usize) -> spec_fn(Destination) -> bool {
    |destination: Destination| destination.id != id
}

/// The destinations whose id is not `id`, in order.
pub open spec fn without_destination(destinations: Seq<Destination>, id: usize) -> Seq<
    Destination,
> {
    destinations.filter(destination_other_than(id))
}

/// The test for a room with another id.
pub open spec fn room_other_than(id: usize) -> spec_fn(RoomView) -> bool {
    |room: RoomView| room.id != id
}

/// The rooms whose id is not `id`, in order.
pub open spec fn without_room(rooms: Seq<RoomView>, id: usize) -> Seq<RoomView> {
    rooms.filter(room_other_than(id))
}

/// The kind of connection that the flag stands for.
pub open spec fn kind_of(one_way: bool) -> ExitType {
    if one_way {
        ExitType::OneWay
    } else {
        ExitType::TwoWay
    }
}

/// What connecting a room through one entrance and one exit yields.
pub struct RoomConnection {
    /// The exit that was used.
    pub exit: Exit,
    /// The exits of the room that now wait in the pool.
    pub remaining_exits: Vec<Exit>,
    /// The doors that the connection resolves.
    pub doors: Vec<Door>,
    /// The one-way entrances of the room that were not used.
    pub leftover_one_way_entrances: Vec<Destination>,
}

/// A [`RoomConnection`] as the specifications see it.
#[verifier::ext_equal]
pub struct RoomConnectionView {
    pub exit: Exit,
    pub remaining_exits: Seq<Exit>,
    pub doors: Seq<Door>,
    pub leftover_one_way_entrances: Seq<Destination>,
}

impl View for RoomConnection {
    type V = RoomConnectionView;

    open spec fn view(&self) -> RoomConnectionView {
        RoomConnectionView {
            exit: self.exit,
            remaining_exits: self.remaining_exits@,
            doors: self.doors@,
            leftover_one_way_entrances: self.leftover_one_way_entrances@,
        }
    }
}

/// What one step of the shuffle yields.
pub struct Connection {
    /// The exits that wait in the pool after the step.
    pub exits: Vec<Exit>,
    /// The doors that the step resolves.
    pub doors: Vec<Door>,
    /// The id of the room that was connected.
    pub room_id: usize,
    /// The one-way entrances of that room that were not used.
    pub leftover_one_way_entrances: Vec<Destination>,
}

/// A [`Connection`] as the specifications see it.
#[verifier::ext_equal]
pub struct ConnectionView {
    pub exits: Seq<Exit>,
    pub doors: Seq<Door>,
    pub room_id: usize,
    pub leftover_one_way_entrances: Seq<Destination>,
}

impl View for Connection {
    type V = ConnectionView;

    open spec fn view(&self) -> ConnectionView {
        ConnectionView {
            exits: self.exits@,
            doors: self.doors@,
            room_id: self.room_id,
            leftover_one_way_entrances: self.leftover_one_way_entrances@,
        }
    }
}

/// The result of connecting a room as the specifications see it.
pub open spec fn room_connection_view(result: Result<RoomConnection, ShuffleError>) -> Result<
    RoomConnectionView,
    ShuffleError,
> {
    match result {
        Ok(made) => Ok(made@),
        Err(error) => Err(error),
    }
}

/// The result of a step as the specifications see it.
pub open spec fn connection_view(result: Result<Connection, ShuffleError>) -> Result<
    ConnectionView,
    ShuffleError,
> {
    match result {
        Ok(made) => Ok(made@),
        Err(error) => Err(error),
    }
}

/// The random choices of one step: the place of the room in the pool, the
/// waiting exit, and the entrance of the room. The kind of the connection is
/// the kind of the exit.
pub struct Choice {
    pub room: int,
    pub exit: Exit,
    pub entrance: Destination,
}

/// Whether the exit waits in the pool and the entrance is one of the room's
/// entrances of the exit's kind.
pub open spec fn pair_allowed(
    exits: Seq<Exit>,
    room: RoomView,
    exit: Exit,
    entrance: Destination,
) -> bool {
    exits.contains(exit) && room.entrances(exit.exit_type).contains(entrance)
}

/// Whether a step may make this choice: the room is selectable, the exit
/// waits in the pool, and the entrance is one of the room's entrances of the
/// exit's kind.
pub open spec fn choice_allowed(exits: Seq<Exit>, rooms: Seq<RoomView>, choice: Choice) -> bool {
    &&& 0 <= choice.room < rooms.len()
    &&& selectable(rooms[choice.room], exits, rooms)
    &&& pair_allowed(exits, rooms[choice.room], choice.exit, choice.entrance)
}

impl Shuffler {
    /// The doors that a connection resolves. A one-way connection resolves
    /// the door from the exit to the entrance. A two-way connection resolves
    /// a second door as well, which leads from the exit on the other side of
    /// the entrance to the destination on the other side of the exit; it is
    /// not to be had when the index lacks one of the two.
    pub open spec fn doors_made(
        &self,
        entrance: Destination,
        exit: Exit,
        one_way: bool,
    ) -> Option<Seq<Door>> {
        if one_way {
            Some(seq![Door(entrance, exit)])
        } else {
            match (self.corresponding_destination(exit), self.corresponding_exit(entrance)) {
                (Some(back_destination), Some(back_exit)) => Some(
                    seq![Door(entrance, exit), Door(back_destination, back_exit)],
                ),
                _ => None,
            }
        }
    }

    /// The exits of a connected room that wait in the pool from then on: all
    /// of them after a one-way connection; after a two-way connection all but
    /// the two-way exit on the other side of the entrance.
    pub open spec fn exits_brought(
        &self,
        room: RoomView,
        entrance: Destination,
        one_way: bool,
    ) -> Option<Seq<Exit>> {
        if one_way {
            Some(room.one_way_exits + room.two_way_exits)
        } else {
            match self.corresponding_exit(entrance) {
                Some(back_exit) => Some(
                    room.one_way_exits + without_exit(room.two_way_exits, back_exit.id),
                ),
                None => None,
            }
        }
    }

    /// What connecting `room` through `entrance` and `exit` yields.
    pub open spec fn resolved(
        &self,
        room: RoomView,
        entrance: Destination,
        exit: Exit,
        one_way: bool,
    ) -> Result<RoomConnectionView, ShuffleError> {
        match (self.doors_made(entrance, exit, one_way), self.exits_brought(room, entrance, one_way)) {
            (Some(doors), Some(remaining_exits)) => Ok(
                RoomConnectionView {
                    exit,
                    remaining_exits,
                    doors,
                    leftover_one_way_entrances: without_destination(
                        room.one_way_entrances,
                        entrance.id,
                    ),
                },
            ),
            _ => Err(ShuffleError::MissingConnection),
        }
    }

    /// What a step with the given choice yields: the used exit leaves the
    /// pool and the exits that the room brings are added behind the rest.
    pub open spec fn connection(
        &self,
        exits: Seq<Exit>,
        rooms: Seq<RoomView>,
        choice: Choice,
    ) -> Result<ConnectionView, ShuffleError> {
        match self.resolved(
            rooms[choice.room],
            choice.entrance,
            choice.exit,
            choice.exit.exit_type == ExitType::OneWay,
        ) {
            Ok(made) => Ok(
                ConnectionView {
                    exits: without_exit(exits, choice.exit.id) + made.remaining_exits,
                    doors: made.doors,
                    room_id: rooms[choice.room].id,
                    leftover_one_way_entrances: made.leftover_one_way_entrances,
                },
            ),
            Err(error) => Err(error),
        }
    }

    /// The exits whose id is not that of `selected_exit`, followed by
    /// `remaining_exits`.
    pub fn calculate_new_exits(
        exits: &[Exit],
        selected_exit: Exit,
        remaining_exits: &[Exit],
    ) -> (new_exits: Vec<Exit>)
        ensures
            new_exits@ == without_exit(exits@, selected_exit.id) + remaining_exits@,
    {
        let mut new_exits = Self::exits_without(exits, selected_exit.id);
        append_items(&mut new_exits, remaining_exits);
        new_exits
    }

    fn exits_without(exits: &[Exit], id: usize) -> (kept: Vec<Exit>)
        ensures
            kept@ == without_exit(exits@, id),
    {
        let mut kept: Vec<Exit> = Vec::new();
        let mut i: usize = 0;
        proof {
            lemma_filter_nothing(exits@.take(0), exit_other_than(id));
        }
        while i < exits.len()
            invariant
                i <= exits@.len(),
                kept@ == without_exit(exits@.take(i as int), id),
            decreases exits@.len() - i,
        {
            proof {
                lemma_filter_take_step(exits@, exit_other_than(id), i as int);
            }
            if exits[i].id != id {
                kept.push(exits[i]);
            }
            i += 1;
        }
        assert(exits@.take(exits@.len() as int) =~= exits@);
        kept
    }

    fn destinations_without(destinations: &[Destination], id: usize) -> (kept: Vec<Destination>)
        ensures
            kept@ == without_destination(destinations@, id),
    {
        let mut kept: Vec<Destination> = Vec::new();
        let mut i: usize = 0;
        proof {
            lemma_filter_nothing(destinations@.take(0), destination_other_than(id));
        }
        while i < destinations.len()
            invariant
                i <= destinations@.len(),
                kept@ == without_destination(destinations@.take(i as int), id),
            decreases destinations@.len() - i,
        {
            proof {
                lemma_filter_take_step(destinations@, destination_other_than(id), i as int);
            }
            if destinations[i].id != id {
                kept.push(destinations[i]);
            }
            i += 1;
        }
        assert(destinations@.take(destinations@.len() as int) =~= destinations@);
        kept
    }

    /// The rooms whose id is not `id`, in order.
    pub fn rooms_without(rooms: &[Room], id: usize) -> (kept: Vec<Room>)
        ensures
            room_views(kept@) == without_room(room_views(rooms@), id),
    {
        let ghost views = room_views(rooms@);
        let mut kept: Vec<Room> = Vec::new();
        let mut i: usize = 0;
        proof {
            lemma_filter_nothing(views.take(0), room_other_than(id));
            assert(room_views(kept@) =~= Seq::<RoomView>::empty());
        }
        while i < rooms.len()
            invariant
                i <= rooms@.len(),
                views == room_views(rooms@),
                room_views(kept@) == without_room(views.take(i as int), id),
            decreases rooms@.len() - i,
        {
            proof {
                lemma_filter_take_step(views, room_other_than(id), i as int);
            }
            if rooms[i].id != id {
                let ghost before = kept@;
                let room = rooms[i].duplicate();
                kept.push(room);
                assert(room_views(kept@) =~= room_views(before).push(views[i as int]));
            }
            i += 1;
        }
        assert(views.take(views.len() as int) =~= views);
        kept
    }

    /// Resolves the doors of a connection, or fails when a two-way
    /// connection is asked for and the index lacks the other side of the
    /// entrance or of the exit.
    pub fn make_doors(&self, entrance: Destination, exit: Exit, one_way: bool) -> (r: Result<
        Vec<Door>,
        ShuffleError,
    >)
        ensures
            match r {
                Ok(doors) => self.doors_made(entrance, exit, one_way) == Some(doors@),
                Err(error) => error == ShuffleError::MissingConnection && self.doors_made(
                    entrance,
                    exit,
                    one_way,
                ) is None,
            },
    {
        let mut doors: Vec<Door> = Vec::new();
        doors.push(Door(entrance, exit));
        if one_way {
            assert(doors@ =~= seq![Door(entrance, exit)]);
            return Ok(doors);
        }
        match self.find_corresponding_destination(exit) {
            Some(back_destination) => match self.find_corresponding_exit(entrance) {
                Some(back_exit) => {
                    doors.push(Door(back_destination, back_exit));
                    assert(doors@ =~= seq![Door(entrance, exit), Door(back_destination, back_exit)]);
                    Ok(doors)
                },
                None => Err(ShuffleError::MissingConnection),
            },
            None => Err(ShuffleError::MissingConnection),
        }
    }

    /// The exits of a connected room that wait in the pool from then on, or
    /// a failure when a two-way connection is asked for and the index lacks
    /// the other side of the entrance.
    pub fn find_remaining_exits(
        &self,
        selected_room: &Room,
        entrance: Destination,
        one_way: bool,
    ) -> (r: Result<Vec<Exit>, ShuffleError>)
        ensures
            match r {
                Ok(exits) => self.exits_brought(selected_room@, entrance, one_way) == Some(exits@),
                Err(error) => error == ShuffleError::MissingConnection && self.exits_brought(
                    selected_room@,
                    entrance,
                    one_way,
                ) is None,
            },
    {
        let mut exits = copy_items(selected_room.one_way_exits.as_slice());
        if one_way {
            append_items(&mut exits, selected_room.two_way_exits.as_slice());
            Ok(exits)
        } else {
            match self.find_corresponding_exit(entrance) {
                Some(back_exit) => {
                    let two_way = Self::exits_without(
                        selected_room.two_way_exits.as_slice(),
                        back_exit.id,
                    );
                    append_items(&mut exits, two_way.as_slice());
                    Ok(exits)
                },
                None => Err(ShuffleError::MissingConnection),
            }
        }
    }

    /// Connects `selected_room` through `entrance` and `exit`.
    pub fn resolve_connection(
        &self,
        selected_room: &Room,
        entrance: Destination,
        exit: Exit,
        one_way: bool,
    ) -> (r: Result<RoomConnection, ShuffleError>)
        ensures
            room_connection_view(r) == self.resolved(selected_room@, entrance, exit, one_way),
    {
        let doors = match self.make_doors(entrance, exit, one_way) {
            Ok(doors) => doors,
            Err(error) => {
                return Err(error);
            },
        };
        let remaining_exits = match self.find_remaining_exits(selected_room, entrance, one_way) {
            Ok(exits) => exits,
            Err(error) => {
                return Err(error);
            },
        };
        let leftover_one_way_entrances = Self::destinations_without(
            selected_room.one_way_entrances.as_slice(),
            entrance.id,
        );
        Ok(RoomConnection { exit, remaining_exits, doors, leftover_one_way_entrances })
    }

    /// Draws one of the room's entrances of the kind at random and connects
    /// the room through it and `exit`.
    pub fn build_room_connection_info(
        &self,
        selected_room: &Room,
        rng: &mut StdRng,
        exit: Exit,
        one_way: bool,
    ) -> (r: Result<RoomConnection, ShuffleError>)
        requires
            selected_room@.entrances(kind_of(one_way)).len() > 0,
        ensures
            exists|entrance: Destination| #[trigger]
                selected_room@.entrances(kind_of(one_way)).contains(entrance)
                    && room_connection_view(r) == self.resolved(
                    selected_room@,
                    entrance,
                    exit,
                    one_way,
                ),
    {
        let picked = if one_way {
            pick(rng, selected_room.one_way_entrances.as_slice())
        } else {
            pick(rng, selected_room.two_way_entrances.as_slice())
        };
        match picked {
            Some(entrance) => {
                assert(selected_room@.entrances(kind_of(one_way)).contains(*entrance));
                self.resolve_connection(selected_room, *entrance, exit, one_way)
            },
            None => {
                assert(false);
                Err(ShuffleError::Deadlock)
            },
        }
    }

    /// Connects `selected_room` to one of the waiting exits. Where the room
    /// has entrances of both kinds and exits of both kinds are waiting, the
    /// kind of connection is drawn at random; then an exit of that kind and
    /// an entrance of that kind are drawn.
    pub fn make_room_connection(&self, exits: &[Exit], selected_room: &Room, rng: &mut StdRng) -> (r:
        Result<RoomConnection, ShuffleError>)
        requires
            has_matching_entrance(selected_room@, exits@),
        ensures
            exists|exit: Exit, entrance: Destination| #[trigger]
                pair_allowed(exits@, selected_room@, exit, entrance) && room_connection_view(r)
                    == self.resolved(
                    selected_room@,
                    entrance,
                    exit,
                    exit.exit_type == ExitType::OneWay,
                ),
    {
        let one_way_possible = Self::exit_type_exists(exits, ExitType::OneWay)
            && selected_room.one_way_entrances.len() > 0;
        let two_way_possible = Self::exit_type_exists(exits, ExitType::TwoWay)
            && selected_room.two_way_entrances.len() > 0;
        let one_way = if one_way_possible && two_way_possible {
            let kinds = [ExitType::OneWay, ExitType::TwoWay];
            match pick(rng, kinds.as_slice()) {
                Some(kind) => *kind == ExitType::OneWay,
                None => true,
            }
        } else {
            one_way_possible
        };
        let ghost kind = kind_of(one_way);
        assert(exit_type_present(exits@, kind) && selected_room@.entrances(kind).len() > 0);
        let candidates = Self::get_exits_of_type(
            exits,
            if one_way {
                ExitType::OneWay
            } else {
                ExitType::TwoWay
            },
        );
        proof {
            lemma_filter_members(exits@, of_type(kind));
            let i = choose|i: int| 0 <= i < exits@.len() && (#[trigger] exits@[i]).exit_type == kind;
            assert(exits@.contains(exits@[i]));
            assert(candidates@.contains(exits@[i]));
        }
        match pick(rng, candidates.as_slice()) {
            Some(exit) => {
                let r = self.build_room_connection_info(selected_room, rng, *exit, one_way);
                proof {
                    let entrance = choose|entrance: Destination| #[trigger]
                        selected_room@.entrances(kind_of(one_way)).contains(entrance)
                            && room_connection_view(r) == self.resolved(
                            selected_room@,
                            entrance,
                            *exit,
                            one_way,
                        );
                    assert(candidates@.contains(*exit));
                    assert(exits@.contains(*exit) && exit.exit_type == kind);
                    assert(pair_allowed(exits@, selected_room@, *exit, entrance));
                }
                r
            },
            None => {
                assert(false);
                Err(ShuffleError::Deadlock)
            },
        }
    }

    /// One step of the shuffle: draws a selectable room at random, connects
    /// it to one of the waiting exits, and takes the used exit out of the
    /// pool. Fails with [`ShuffleError::Deadlock`] exactly when no room is
    /// selectable.
    pub fn connect_new_room(&self, exits: &[Exit], unselected_rooms: &[Room], rng: &mut StdRng) -> (r:
        Result<Connection, ShuffleError>)
        ensures
            none_selectable(exits@, room_views(unselected_rooms@)) ==> r is Err && r->Err_0
                == ShuffleError::Deadlock,
            !none_selectable(exits@, room_views(unselected_rooms@)) ==> exists|choice: Choice|
                #[trigger] choice_allowed(exits@, room_views(unselected_rooms@), choice)
                    && connection_view(r) == self.connection(
                    exits@,
                    room_views(unselected_rooms@),
                    choice,
                ),
    {
        let ghost rooms = room_views(unselected_rooms@);
        let selectable_rooms = Self::find_selectable_rooms(exits, unselected_rooms);
        match pick(rng, selectable_rooms.as_slice()) {
            None => {
                assert forall|i: int| 0 <= i < rooms.len() implies !selectable(
                    #[trigger] rooms[i],
                    exits@,
                    rooms,
                ) by {
                    if selectable(rooms[i], exits@, rooms) {
                        assert(selectable_rooms@.contains(i as usize));
                    }
                }
                Err(ShuffleError::Deadlock)
            },
            Some(place) => {
                let place = *place;
                assert(selectable_rooms@.contains(place));
                let selected_room = &unselected_rooms[place];
                assert(rooms[place as int] == selected_room@);
                assert(selectable(rooms[place as int], exits@, rooms));
                match self.make_room_connection(exits, selected_room, rng) {
                    Err(error) => {
                        proof {
                            let (exit, entrance) = choose|exit: Exit, entrance: Destination|
                                #[trigger] pair_allowed(exits@, selected_room@, exit, entrance)
                                    && Err::<RoomConnectionView, ShuffleError>(error)
                                    == self.resolved(
                                    selected_room@,
                                    entrance,
                                    exit,
                                    exit.exit_type == ExitType::OneWay,
                                );
                            let choice = Choice { room: place as int, exit, entrance };
                            assert(choice_allowed(exits@, rooms, choice));
                        }
                        Err(error)
                    },
                    Ok(made) => {
                        let new_exits = Self::calculate_new_exits(
                            exits,
                            made.exit,
                            made.remaining_exits.as_slice(),
                        );
                        proof {
                            let (exit, entrance) = choose|exit: Exit, entrance: Destination|
                                #[trigger] pair_allowed(exits@, selected_room@, exit, entrance)
                                    && Ok::<RoomConnectionView, ShuffleError>(made@)
                                    == self.resolved(
                                    selected_room@,
                                    entrance,
                                    exit,
                                    exit.exit_type == ExitType::OneWay,
                                );
                            let choice = Choice { room: place as int, exit, entrance };
                            assert(choice_allowed(exits@, rooms, choice));
                            assert(made.exit == exit);
                        }
                        Ok(
                            Connection {
                                exits: new_exits,
                                doors: made.doors,
                                room_id: selected_room.id,
                                leftover_one_way_entrances: made.leftover_one_way_entrances,
                            },
                        )
                    },
                }
            },
        }
    }
}

} // verus!
