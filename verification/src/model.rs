//! The rooms, doorways and doors that the shuffler works on.

use vstd::prelude::*;
use vstd::std_specs::cmp::PartialEqSpecImpl;

verus! {

/// Whether a doorway can be walked in one direction only or in both.
#[derive(Copy, Clone, PartialEq, Eq, Debug, Structural)]
pub enum ExitType {
    OneWay,
    TwoWay,
}

/// A place a door can lead to: an identity and the four bytes that encode
/// the location in the image. Two destinations are the same one when their
/// ids agree; the bytes are derived data.
#[derive(Copy, Clone, Eq, Debug)]
pub struct Destination {
    pub id: usize,
    pub destination_bytes: [u8; 4],
}

impl PartialEq for Destination {
    fn eq(&self, other: &Destination) -> (r: bool) {
        self.id == other.id
    }
}

impl PartialEqSpecImpl for Destination {
    open spec fn obeys_eq_spec() -> bool {
        true
    }

    open spec fn eq_spec(&self, other: &Destination) -> bool {
        self.id == other.id
    }
}

impl Destination {
    pub fn new(id: usize, destination_bytes: [u8; 4]) -> (d: Destination)
        ensures
            d.id == id,
            d.destination_bytes == destination_bytes,
    {
        Destination { id, destination_bytes }
    }
}

/// The outgoing side of a doorway: an identity, the two addresses in the
/// image where the destination's bytes are written, the kind of doorway, and
/// the id of the door it was linked to in the unshuffled map (`-1` when there
/// is none). Two exits are the same one when their ids agree.
#[derive(Copy, Clone, Eq, Debug)]
pub struct Exit {
    pub id: usize,
    pub exit_addr1: usize,
    pub exit_addr2: usize,
    pub exit_type: ExitType,
    pub linked_door_id: i32,
}

impl PartialEq for Exit {
    fn eq(&self, other: &Exit) -> (r: bool) {
        self.id == other.id
    }
}

impl PartialEqSpecImpl for Exit {
    open spec fn obeys_eq_spec() -> bool {
        true
    }

    open spec fn eq_spec(&self, other: &Exit) -> bool {
        self.id == other.id
    }
}

impl Exit {
    pub fn new(
        id: usize,
        exit_addr1: usize,
        exit_addr2: usize,
        exit_type: ExitType,
        linked_door_id: i32,
    ) -> (e: Exit)
        ensures
            e.id == id,
            e.exit_addr1 == exit_addr1,
            e.exit_addr2 == exit_addr2,
            e.exit_type == exit_type,
            e.linked_door_id == linked_door_id,
    {
        Exit { id, exit_addr1, exit_addr2, exit_type, linked_door_id }
    }
}

/// A resolved connection: travelling through the exit deposits the traveller
/// at the destination. Two doors are the same one when both ids agree.
#[derive(Copy, Clone, Eq, Debug)]
pub struct Door(pub Destination, pub Exit);

impl PartialEq for Door {
    fn eq(&self, other: &Door) -> (r: bool) {
        self.0.id == other.0.id && self.1.id == other.1.id
    }
}

impl PartialEqSpecImpl for Door {
    open spec fn obeys_eq_spec() -> bool {
        true
    }

    open spec fn eq_spec(&self, other: &Door) -> bool {
        self.0.id == other.0.id && self.1.id == other.1.id
    }
}

/// A node of the traversal graph, with its entrances and exits by kind.
/// Two rooms are the same one when their ids agree.
#[derive(Clone, Debug)]
pub struct Room {
    pub id: usize,
    pub one_way_entrances: Vec<Destination>,
    pub two_way_entrances: Vec<Destination>,
    pub one_way_exits: Vec<Exit>,
    pub two_way_exits: Vec<Exit>,
}

impl PartialEq for Room {
    fn eq(&self, other: &Room) -> (r: bool) {
        self.id == other.id
    }
}

impl PartialEqSpecImpl for Room {
    open spec fn obeys_eq_spec() -> bool {
        true
    }

    open spec fn eq_spec(&self, other: &Room) -> bool {
        self.id == other.id
    }
}

/// What a room is to the specifications: its id and its four lists.
#[verifier::ext_equal]
pub struct RoomView {
    pub id: usize,
    pub one_way_entrances: Seq<Destination>,
    pub two_way_entrances: Seq<Destination>,
    pub one_way_exits: Seq<Exit>,
    pub two_way_exits: Seq<Exit>,
}

impl View for Room {
    type V = RoomView;

    open spec fn view(&self) -> RoomView {
        RoomView {
            id: self.id,
            one_way_entrances: self.one_way_entrances@,
            two_way_entrances: self.two_way_entrances@,
            one_way_exits: self.one_way_exits@,
            two_way_exits: self.two_way_exits@,
        }
    }
}

impl RoomView {
    /// The room's entrances of one kind.
    pub open spec fn entrances(self, kind: ExitType) -> Seq<Destination> {
        match kind {
            ExitType::OneWay => self.one_way_entrances,
            ExitType::TwoWay => self.two_way_entrances,
        }
    }

    /// All exits of the room, the one-way exits first.
    pub open spec fn exits(self) -> Seq<Exit> {
        self.one_way_exits + self.two_way_exits
    }
}

/// The rooms of a list as the specifications see them.
pub open spec fn room_views(rooms: Seq<Room>) -> Seq<RoomView> {
    Seq::new(rooms.len(), |i: int| rooms[i]@)
}

/// A copy of a list of copyable items.
pub fn copy_items<T: Copy>(items: &[T]) -> (copy: Vec<T>)
    ensures
        copy@ == items@,
{
    let mut copy: Vec<T> = Vec::new();
    let mut i: usize = 0;
    while i < items.len()
        invariant
            i <= items.len(),
            copy@ == items@.take(i as int),
        decreases items.len() - i,
    {
        copy.push(items[i]);
        i += 1;
        assert(items@.take(i as int) =~= items@.take(i - 1).push(items@[i - 1]));
    }
    assert(items@.take(items@.len() as int) =~= items@);
    copy
}

/// Adds copies of `items` behind what `target` holds.
pub fn append_items<T: Copy>(target: &mut Vec<T>, items: &[T])
    ensures
        final(target)@ == old(target)@ + items@,
{
    let ghost before = target@;
    let mut i: usize = 0;
    assert(target@ =~= before + items@.take(0));
    while i < items.len()
        invariant
            i <= items@.len(),
            target@ == before + items@.take(i as int),
        decreases items@.len() - i,
    {
        target.push(items[i]);
        i += 1;
        assert(target@ =~= before + items@.take(i as int));
    }
    assert(items@.take(items@.len() as int) =~= items@);
}

impl Room {
    /// A room with the same id and the same four lists.
    pub fn duplicate(&self) -> (room: Room)
        ensures
            room@ == self@,
    {
        Room {
            id: self.id,
            one_way_entrances: copy_items(self.one_way_entrances.as_slice()),
            two_way_entrances: copy_items(self.two_way_entrances.as_slice()),
            one_way_exits: copy_items(self.one_way_exits.as_slice()),
            two_way_exits: copy_items(self.two_way_exits.as_slice()),
        }
    }
}

} // verus!
